//! The settings file: what is indexed and where, what is left out, how often the file system
//! is polled, and the keyboard shortcuts. The file is a small TOML subset: `[section]` lines,
//! `key = value` lines, `#` comments, booleans, numbers, quoted strings and arrays of strings.
use crate::text::{
    chars_of, find_char, index_of, lemma_index_of, parse_u64, parse_u64_spec, push_char, push_str,
    slice_chars, split_chars, split_on, string_from_chars, string_of, trim, trim_chars, eq_lit,
};
use vstd::prelude::*;

verus! {

#[derive(Debug, Clone, Copy, PartialEq, Eq, Structural)]
pub enum OperatorOrder {
    OrAnd,
    AndOr,
}

#[derive(Debug, Clone, Copy, PartialEq, Eq, Structural)]
pub enum KeyboardScope {
    Global,
    SearchEdit,
    ResultList,
}

#[derive(Debug, Clone, PartialEq, Eq)]
pub struct KeyboardShortcutConfig {
    pub command_id: String,
    pub scope: KeyboardScope,
    pub accelerator: String,
}

#[derive(Debug, Clone, PartialEq, Eq)]
pub struct KeyboardConfig {
    pub new_window_hotkey: String,
    pub show_window_hotkey: String,
    pub toggle_window_hotkey: String,
    pub command_shortcuts: Vec<KeyboardShortcutConfig>,
}

/// The settings. Paths are held as text.
#[derive(Debug, Clone, PartialEq, Eq)]
pub struct Config {
    pub roots: Vec<String>,
    pub exclude_fstypes: Vec<String>,
    pub exclude_hidden: bool,
    pub exclude_patterns: Vec<String>,
    pub exclude_folders: Vec<String>,
    pub include_only: Vec<String>,
    pub index_size: bool,
    pub index_date_modified: bool,
    pub index_date_created: bool,
    pub index_date_accessed: bool,
    pub index_permissions: bool,
    pub fast_sort_extension: bool,
    pub fast_sort_path: bool,
    pub whole_filename_wildcards: bool,
    pub operator_precedence: OperatorOrder,
    pub poll_interval_secs: u64,
    pub keyboard: KeyboardConfig,
}

pub struct ShortcutView {
    pub command_id: Seq<char>,
    pub scope: KeyboardScope,
    pub accelerator: Seq<char>,
}

pub struct KeyboardView {
    pub new_window_hotkey: Seq<char>,
    pub show_window_hotkey: Seq<char>,
    pub toggle_window_hotkey: Seq<char>,
    pub command_shortcuts: Seq<ShortcutView>,
}

/// The index settings: what each entry records, and how queries read.
#[derive(Debug, Clone, Copy, PartialEq, Eq, Structural)]
pub struct IndexSettings {
    pub size: bool,
    pub date_modified: bool,
    pub date_created: bool,
    pub date_accessed: bool,
    pub permissions: bool,
    pub fast_extension: bool,
    pub whole_filename_wildcards: bool,
    pub precedence: OperatorOrder,
}

pub struct ConfigView {
    pub roots: Seq<Seq<char>>,
    pub exclude_fstypes: Seq<Seq<char>>,
    pub exclude_hidden: bool,
    pub exclude_patterns: Seq<Seq<char>>,
    pub exclude_folders: Seq<Seq<char>>,
    pub include_only: Seq<Seq<char>>,
    pub index: IndexSettings,
    pub fast_sort_path: bool,
    pub poll_interval_secs: u64,
    pub keyboard: KeyboardView,
}

pub open spec fn strings_view(v: Seq<String>) -> Seq<Seq<char>> {
    Seq::new(v.len(), |i: int| v[i]@)
}

impl View for KeyboardShortcutConfig {
    type V = ShortcutView;

    open spec fn view(&self) -> ShortcutView {
        ShortcutView { command_id: self.command_id@, scope: self.scope, accelerator: self.accelerator@ }
    }
}

pub open spec fn shortcuts_view(v: Seq<KeyboardShortcutConfig>) -> Seq<ShortcutView> {
    Seq::new(v.len(), |i: int| v[i]@)
}

impl View for KeyboardConfig {
    type V = KeyboardView;

    open spec fn view(&self) -> KeyboardView {
        KeyboardView {
            new_window_hotkey: self.new_window_hotkey@,
            show_window_hotkey: self.show_window_hotkey@,
            toggle_window_hotkey: self.toggle_window_hotkey@,
            command_shortcuts: shortcuts_view(self.command_shortcuts@),
        }
    }
}

impl View for Config {
    type V = ConfigView;

    open spec fn view(&self) -> ConfigView {
        ConfigView {
            roots: strings_view(self.roots@),
            exclude_fstypes: strings_view(self.exclude_fstypes@),
            exclude_hidden: self.exclude_hidden,
            exclude_patterns: strings_view(self.exclude_patterns@),
            exclude_folders: strings_view(self.exclude_folders@),
            include_only: strings_view(self.include_only@),
            index: IndexSettings {
                size: self.index_size,
                date_modified: self.index_date_modified,
                date_created: self.index_date_created,
                date_accessed: self.index_date_accessed,
                permissions: self.index_permissions,
                fast_extension: self.fast_sort_extension,
                whole_filename_wildcards: self.whole_filename_wildcards,
                precedence: self.operator_precedence,
            },
            fast_sort_path: self.fast_sort_path,
            poll_interval_secs: self.poll_interval_secs,
            keyboard: self.keyboard@,
        }
    }
}

/// `Ctrl+N` opens a new window; no other hotkey, no shortcut.
pub open spec fn default_keyboard() -> KeyboardView {
    KeyboardView {
        new_window_hotkey: "Ctrl+N"@,
        show_window_hotkey: Seq::empty(),
        toggle_window_hotkey: Seq::empty(),
        command_shortcuts: Seq::empty(),
    }
}

impl Default for KeyboardConfig {
    fn default() -> (r: Self)
        ensures
            r@ == default_keyboard(),
    {
        let r = KeyboardConfig {
            new_window_hotkey: string_of("Ctrl+N"),
            show_window_hotkey: String::new(),
            toggle_window_hotkey: String::new(),
            command_shortcuts: Vec::new(),
        };
        assert(r@.command_shortcuts =~= Seq::<ShortcutView>::empty());
        r
    }
}

pub open spec fn default_index() -> IndexSettings {
    IndexSettings {
        size: true,
        date_modified: false,
        date_created: false,
        date_accessed: false,
        permissions: false,
        fast_extension: false,
        whole_filename_wildcards: true,
        precedence: OperatorOrder::OrAnd,
    }
}

/// The home directory as the one root, where there is one.
pub open spec fn home_roots(home: Option<Seq<char>>) -> Seq<Seq<char>> {
    match home {
        Some(h) => seq![h],
        None => Seq::empty(),
    }
}

pub open spec fn default_fstypes() -> Seq<Seq<char>> {
    seq!["tmpfs"@, "nfs4"@, "fuse.sshfs"@]
}

/// The settings without a file: the home directory indexed with sizes, network and memory
/// file systems left out, polling every 300 seconds.
pub open spec fn default_view(home: Option<Seq<char>>) -> ConfigView {
    ConfigView {
        roots: home_roots(home),
        exclude_fstypes: default_fstypes(),
        exclude_hidden: false,
        exclude_patterns: Seq::empty(),
        exclude_folders: Seq::empty(),
        include_only: Seq::empty(),
        index: default_index(),
        fast_sort_path: false,
        poll_interval_secs: 300,
        keyboard: default_keyboard(),
    }
}

pub open spec fn opt_view(o: Option<String>) -> Option<Seq<char>> {
    match o {
        Some(s) => Some(s@),
        None => None,
    }
}

fn empty_strings() -> (r: Vec<String>)
    ensures
        strings_view(r@) == Seq::<Seq<char>>::empty(),
{
    let r: Vec<String> = Vec::new();
    assert(strings_view(r@) =~= Seq::<Seq<char>>::empty());
    r
}

impl Config {
    /// The settings without a file; `home` is the user's home directory, where known.
    pub fn default_config(home: Option<String>) -> (r: Config)
        ensures
            r@ == default_view(opt_view(home)),
    {
        let mut roots: Vec<String> = Vec::new();
        match home {
            Some(h) => roots.push(h),
            None => {},
        }
        let ghost hv = opt_view(home);
        assert(strings_view(roots@) =~= home_roots(hv));
        let fstypes = vec![string_of("tmpfs"), string_of("nfs4"), string_of("fuse.sshfs")];
        assert(strings_view(fstypes@) =~= default_fstypes());
        Config {
            roots,
            exclude_fstypes: fstypes,
            exclude_hidden: false,
            exclude_patterns: empty_strings(),
            exclude_folders: empty_strings(),
            include_only: empty_strings(),
            index_size: true,
            index_date_modified: false,
            index_date_created: false,
            index_date_accessed: false,
            index_permissions: false,
            fast_sort_extension: false,
            fast_sort_path: false,
            whole_filename_wildcards: true,
            operator_precedence: OperatorOrder::OrAnd,
            poll_interval_secs: 300,
            keyboard: KeyboardConfig::default(),
        }
    }
}


/// The decimal digits of `n`.
pub open spec fn decimal(n: nat) -> Seq<char>
    decreases n,
{
    if n < 10 {
        seq![(48 + n) as char]
    } else {
        decimal(n / 10) + seq![(48 + n % 10) as char]
    }
}

/// A line up to its first `#`.
pub open spec fn before_hash(s: Seq<char>) -> Seq<char> {
    if index_of(s, '#') < 0 {
        s
    } else {
        s.take(index_of(s, '#'))
    }
}

pub open spec fn bool_spec(s: Seq<char>) -> Result<bool, Seq<char>> {
    if s == "true"@ {
        Ok(true)
    } else if s == "false"@ {
        Ok(false)
    } else {
        Err("expected true/false, got: "@ + s)
    }
}

pub open spec fn trim_start_char(s: Seq<char>, c: char) -> Seq<char>
    decreases s.len(),
{
    if s.len() > 0 && s[0] == c {
        trim_start_char(s.drop_first(), c)
    } else {
        s
    }
}

pub open spec fn trim_end_char(s: Seq<char>, c: char) -> Seq<char>
    decreases s.len(),
{
    if s.len() > 0 && s.last() == c {
        trim_end_char(s.drop_last(), c)
    } else {
        s
    }
}

/// The items of an array: trimmed, empty ones left out, quotes at either end taken off.
pub open spec fn array_items(pieces: Seq<Seq<char>>) -> Seq<Seq<char>>
    decreases pieces.len(),
{
    if pieces.len() == 0 {
        Seq::empty()
    } else {
        let rest = array_items(pieces.drop_last());
        let t = trim(pieces.last());
        if t.len() == 0 {
            rest
        } else {
            rest.push(trim_end_char(trim_start_char(t, '"'), '"'))
        }
    }
}

/// An array of strings `[a, "b", ...]`, split at each comma.
pub open spec fn array_spec(s: Seq<char>) -> Result<Seq<Seq<char>>, Seq<char>> {
    let t = trim(s);
    if !(t.len() > 0 && t[0] == '[' && t.last() == ']') {
        Err("expected array, got: "@ + t)
    } else {
        Ok(array_items(split_on(t.subrange(1, t.len() - 1), ',')))
    }
}

/// `s` with each `\"` read as `"`.
pub open spec fn unescape(s: Seq<char>) -> Seq<char>
    decreases s.len(),
{
    if s.len() == 0 {
        s
    } else if s.len() >= 2 && s[0] == '\\' && s[1] == '"' {
        seq!['"'] + unescape(s.skip(2))
    } else {
        seq![s[0]] + unescape(s.drop_first())
    }
}

/// A quoted string.
pub open spec fn string_spec(s: Seq<char>) -> Result<Seq<char>, Seq<char>> {
    let t = trim(s);
    if t.len() < 2 || t[0] != '"' || t.last() != '"' {
        Err("expected string, got: "@ + t)
    } else {
        Ok(unescape(t.subrange(1, t.len() - 1)))
    }
}

pub open spec fn precedence_spec(s: Seq<char>) -> Result<OperatorOrder, Seq<char>> {
    if s == "or_and"@ {
        Ok(OperatorOrder::OrAnd)
    } else if s == "and_or"@ {
        Ok(OperatorOrder::AndOr)
    } else {
        Err("unknown precedence: "@ + s)
    }
}

/// A key of `[index]`; other keys are ignored.
#[verifier::opaque]
pub open spec fn index_key_spec(ix: IndexSettings, key: Seq<char>, value: Seq<char>) -> Result<
    IndexSettings,
    Seq<char>,
> {
    if key == "operator_precedence"@ {
        match precedence_spec(value) {
            Ok(p) => Ok(IndexSettings { precedence: p, ..ix }),
            Err(e) => Err(e),
        }
    } else if key == "size"@ || key == "date_modified"@ || key == "date_created"@ || key
        == "date_accessed"@ || key == "permissions"@ || key == "fast_extension"@ || key
        == "whole_filename_wildcards"@ {
        match bool_spec(value) {
            Err(e) => Err(e),
            Ok(b) => Ok(
                if key == "size"@ {
                    IndexSettings { size: b, ..ix }
                } else if key == "date_modified"@ {
                    IndexSettings { date_modified: b, ..ix }
                } else if key == "date_created"@ {
                    IndexSettings { date_created: b, ..ix }
                } else if key == "date_accessed"@ {
                    IndexSettings { date_accessed: b, ..ix }
                } else if key == "permissions"@ {
                    IndexSettings { permissions: b, ..ix }
                } else if key == "fast_extension"@ {
                    IndexSettings { fast_extension: b, ..ix }
                } else {
                    IndexSettings { whole_filename_wildcards: b, ..ix }
                },
            ),
        }
    } else {
        Ok(ix)
    }
}

/// What is indexed: the roots, the file system types left out, and what is left out by name.
pub struct ScopeView {
    pub roots: Seq<Seq<char>>,
    pub fstypes: Seq<Seq<char>>,
    pub hidden: bool,
    pub patterns: Seq<Seq<char>>,
    pub folders: Seq<Seq<char>>,
    pub include_only: Seq<Seq<char>>,
}

/// A key of `[roots]`: `auto_detect = false` drops the roots, `include` sets them.
#[verifier::opaque]
pub open spec fn roots_key_spec(sc: ScopeView, key: Seq<char>, value: Seq<char>) -> Result<
    ScopeView,
    Seq<char>,
> {
    if key == "auto_detect"@ {
        match bool_spec(value) {
            Ok(true) => Ok(sc),
            Ok(false) => Ok(ScopeView { roots: Seq::empty(), ..sc }),
            Err(e) => Err(e),
        }
    } else if key == "include"@ {
        match array_spec(value) {
            Ok(a) => Ok(ScopeView { roots: a, ..sc }),
            Err(e) => Err(e),
        }
    } else if key == "exclude_fstypes"@ {
        match array_spec(value) {
            Ok(a) => Ok(ScopeView { fstypes: a, ..sc }),
            Err(e) => Err(e),
        }
    } else {
        Ok(sc)
    }
}

/// A key of `[exclude]`.
#[verifier::opaque]
pub open spec fn exclude_key_spec(sc: ScopeView, key: Seq<char>, value: Seq<char>) -> Result<
    ScopeView,
    Seq<char>,
> {
    if key == "hidden_files"@ {
        match bool_spec(value) {
            Ok(b) => Ok(ScopeView { hidden: b, ..sc }),
            Err(e) => Err(e),
        }
    } else if key == "patterns"@ {
        match array_spec(value) {
            Ok(a) => Ok(ScopeView { patterns: a, ..sc }),
            Err(e) => Err(e),
        }
    } else if key == "folders"@ {
        match array_spec(value) {
            Ok(a) => Ok(ScopeView { folders: a, ..sc }),
            Err(e) => Err(e),
        }
    } else if key == "include_only"@ {
        match array_spec(value) {
            Ok(a) => Ok(ScopeView { include_only: a, ..sc }),
            Err(e) => Err(e),
        }
    } else {
        Ok(sc)
    }
}

/// The keyboard settings as read so far: the hotkeys and the raw shortcut entries by scope.
pub struct KeysView {
    pub new_window: Seq<char>,
    pub show_window: Seq<char>,
    pub toggle_window: Seq<char>,
    pub global: Seq<Seq<char>>,
    pub search_edit: Seq<Seq<char>>,
    pub result_list: Seq<Seq<char>>,
}

/// A key of `[keyboard]`.
#[verifier::opaque]
pub open spec fn keyboard_key_spec(k: KeysView, key: Seq<char>, value: Seq<char>) -> Result<
    KeysView,
    Seq<char>,
> {
    if key == "new_window_hotkey"@ || key == "show_window_hotkey"@ || key == "toggle_window_hotkey"@ {
        match string_spec(value) {
            Err(e) => Err(e),
            Ok(v) => Ok(
                if key == "new_window_hotkey"@ {
                    KeysView { new_window: v, ..k }
                } else if key == "show_window_hotkey"@ {
                    KeysView { show_window: v, ..k }
                } else {
                    KeysView { toggle_window: v, ..k }
                },
            ),
        }
    } else {
        Ok(k)
    }
}

/// A key of `[keyboard.shortcuts]`.
#[verifier::opaque]
pub open spec fn shortcut_key_spec(k: KeysView, key: Seq<char>, value: Seq<char>) -> Result<
    KeysView,
    Seq<char>,
> {
    if key == "global"@ || key == "search_edit"@ || key == "result_list"@ {
        match array_spec(value) {
            Err(e) => Err(e),
            Ok(a) => Ok(
                if key == "global"@ {
                    KeysView { global: a, ..k }
                } else if key == "search_edit"@ {
                    KeysView { search_edit: a, ..k }
                } else {
                    KeysView { result_list: a, ..k }
                },
            ),
        }
    } else {
        Ok(k)
    }
}

/// The state of reading the file: the settings so far and the current section.
pub struct LoadState {
    pub index: IndexSettings,
    pub scope: ScopeView,
    pub interval: u64,
    pub keys: KeysView,
    pub section: Seq<char>,
}

/// A `key = value` line applied in the current section; unknown sections and keys are ignored.
#[verifier::opaque]
pub open spec fn entry_spec(st: LoadState, key: Seq<char>, value: Seq<char>) -> Result<
    LoadState,
    Seq<char>,
> {
    let sec = st.section;
    if sec == "index"@ {
        match index_key_spec(st.index, key, value) {
            Ok(ix) => Ok(LoadState { index: ix, ..st }),
            Err(e) => Err(e),
        }
    } else if sec == "roots"@ {
        match roots_key_spec(st.scope, key, value) {
            Ok(sc) => Ok(LoadState { scope: sc, ..st }),
            Err(e) => Err(e),
        }
    } else if sec == "exclude"@ {
        match exclude_key_spec(st.scope, key, value) {
            Ok(sc) => Ok(LoadState { scope: sc, ..st }),
            Err(e) => Err(e),
        }
    } else if sec == "polling"@ && key == "interval_secs"@ {
        match parse_u64_spec(value) {
            Some(n) => Ok(LoadState { interval: n, ..st }),
            None => Err("invalid interval"@),
        }
    } else if sec == "keyboard"@ {
        match keyboard_key_spec(st.keys, key, value) {
            Ok(k) => Ok(LoadState { keys: k, ..st }),
            Err(e) => Err(e),
        }
    } else if sec == "keyboard.shortcuts"@ {
        match shortcut_key_spec(st.keys, key, value) {
            Ok(k) => Ok(LoadState { keys: k, ..st }),
            Err(e) => Err(e),
        }
    } else {
        Ok(st)
    }
}

/// Line `n` (counted from 1) applied: comments and blank lines are skipped, `[name]` starts a
/// section, anything else must be `key = value`.
#[verifier::opaque]
pub open spec fn line_spec(st: LoadState, raw: Seq<char>, n: nat) -> Result<LoadState, Seq<char>> {
    let line = trim(before_hash(raw));
    if line.len() == 0 {
        Ok(st)
    } else if line[0] == '[' && line.last() == ']' {
        Ok(LoadState { section: line.subrange(1, line.len() - 1), ..st })
    } else if index_of(line, '=') < 0 {
        Err("expected key=value at line "@ + decimal(n))
    } else {
        let k = index_of(line, '=');
        entry_spec(st, trim(line.take(k)), trim(line.skip(k + 1)))
    }
}

/// The lines from `k` on applied in turn, or the first error.
pub open spec fn lines_spec(st: LoadState, lines: Seq<Seq<char>>, k: int) -> Result<
    LoadState,
    Seq<char>,
>
    decreases lines.len() - k,
{
    if k < 0 || k >= lines.len() {
        Ok(st)
    } else {
        match line_spec(st, lines[k], (k + 1) as nat) {
            Err(e) => Err(e),
            Ok(s2) => lines_spec(s2, lines, k + 1),
        }
    }
}

/// A shortcut entry `command | accelerator`.
pub open spec fn entry_shortcut(entry: Seq<char>, scope: KeyboardScope) -> Result<
    ShortcutView,
    Seq<char>,
> {
    let k = index_of(entry, '|');
    if k < 0 {
        Err("invalid keyboard shortcut entry: "@ + entry)
    } else {
        Ok(ShortcutView { command_id: trim(entry.take(k)), scope, accelerator: trim(entry.skip(k + 1)) })
    }
}

/// The entries of one scope read in order, or the first error.
pub open spec fn scope_shortcuts(entries: Seq<Seq<char>>, scope: KeyboardScope) -> Result<
    Seq<ShortcutView>,
    Seq<char>,
>
    decreases entries.len(),
{
    if entries.len() == 0 {
        Ok(Seq::empty())
    } else {
        match scope_shortcuts(entries.drop_last(), scope) {
            Err(e) => Err(e),
            Ok(v) => match entry_shortcut(entries.last(), scope) {
                Err(e) => Err(e),
                Ok(sc) => Ok(v.push(sc)),
            },
        }
    }
}

/// The shortcuts of the global scope, then the search field's, then the result list's.
pub open spec fn all_shortcuts(k: KeysView) -> Result<Seq<ShortcutView>, Seq<char>> {
    match scope_shortcuts(k.global, KeyboardScope::Global) {
        Err(e) => Err(e),
        Ok(a) => match scope_shortcuts(k.search_edit, KeyboardScope::SearchEdit) {
            Err(e) => Err(e),
            Ok(b) => match scope_shortcuts(k.result_list, KeyboardScope::ResultList) {
                Err(e) => Err(e),
                Ok(c) => Ok(a + b + c),
            },
        },
    }
}

pub open spec fn initial_state(home: Option<Seq<char>>) -> LoadState {
    LoadState {
        index: default_index(),
        scope: ScopeView {
            roots: home_roots(home),
            fstypes: default_fstypes(),
            hidden: false,
            patterns: Seq::empty(),
            folders: Seq::empty(),
            include_only: Seq::empty(),
        },
        interval: 300,
        keys: KeysView {
            new_window: "Ctrl+N"@,
            show_window: Seq::empty(),
            toggle_window: Seq::empty(),
            global: Seq::empty(),
            search_edit: Seq::empty(),
            result_list: Seq::empty(),
        },
        section: Seq::empty(),
    }
}

pub open spec fn config_of(st: LoadState, shortcuts: Seq<ShortcutView>) -> ConfigView {
    ConfigView {
        roots: st.scope.roots,
        exclude_fstypes: st.scope.fstypes,
        exclude_hidden: st.scope.hidden,
        exclude_patterns: st.scope.patterns,
        exclude_folders: st.scope.folders,
        include_only: st.scope.include_only,
        index: st.index,
        fast_sort_path: false,
        poll_interval_secs: st.interval,
        keyboard: KeyboardView {
            new_window_hotkey: st.keys.new_window,
            show_window_hotkey: st.keys.show_window,
            toggle_window_hotkey: st.keys.toggle_window,
            command_shortcuts: shortcuts,
        },
    }
}

/// What `Config::parse` gives for the text of a settings file.
pub open spec fn parse_spec(text: Seq<char>, home: Option<Seq<char>>) -> Result<ConfigView, Seq<char>> {
    match lines_spec(initial_state(home), split_on(text, '\n'), 0) {
        Err(e) => Err(e),
        Ok(st) => match all_shortcuts(st.keys) {
            Err(e) => Err(e),
            Ok(sc) => Ok(config_of(st, sc)),
        },
    }
}


pub(crate) fn push_decimal(s: &mut String, n: u64)
    ensures
        final(s)@ == old(s)@ + decimal(n as nat),
    decreases n,
{
    if n >= 10 {
        push_decimal(s, n / 10);
    }
    let d = (n % 10) as u8;
    push_char(s, (48u8 + d) as char);
    assert(s@ =~= old(s)@ + decimal(n as nat));
}

fn before_hash_exec(raw: &[char]) -> (r: Vec<char>)
    ensures
        r@ == before_hash(raw@),
{
    proof {
        lemma_index_of(raw@, '#');
    }
    match find_char(raw, '#') {
        Some(k) => {
            let r = slice_chars(raw, 0, k);
            assert(r@ =~= raw@.take(k as int));
            r
        },
        None => slice_chars(raw, 0, raw.len()),
    }
}

fn error_with(prefix: &str, rest: &[char]) -> (e: String)
    ensures
        e@ == prefix@ + rest@,
{
    let mut m = string_of(prefix);
    let r = string_from_chars(rest);
    push_str(&mut m, r.as_str());
    m
}

fn parse_bool(v: &[char]) -> (r: Result<bool, String>)
    ensures
        match r {
            Ok(b) => bool_spec(v@) == Ok::<bool, Seq<char>>(b),
            Err(e) => bool_spec(v@) == Err::<bool, Seq<char>>(e@),
        },
{
    if eq_lit(v, "true") {
        Ok(true)
    } else if eq_lit(v, "false") {
        Ok(false)
    } else {
        Err(error_with("expected true/false, got: ", v))
    }
}

fn strip_quotes(t: &[char]) -> (r: Vec<char>)
    ensures
        r@ == trim_end_char(trim_start_char(t@, '"'), '"'),
{
    let n = t.len();
    let mut a: usize = 0;
    assert(t@.subrange(0, n as int) =~= t@);
    while a < n && t[a] == '"'
        invariant
            a <= n == t@.len(),
            trim_start_char(t@, '"') == trim_start_char(t@.subrange(a as int, n as int), '"'),
        decreases n - a,
    {
        assert(t@.subrange(a as int, n as int).drop_first() =~= t@.subrange(a + 1, n as int));
        a += 1;
    }
    let mut b: usize = n;
    let ghost u = t@.subrange(a as int, n as int);
    assert(u.subrange(0, u.len() as int) =~= u);
    while b > a && t[b - 1] == '"'
        invariant
            a <= b <= n == t@.len(),
            u == t@.subrange(a as int, n as int),
            trim_start_char(t@, '"') == u,
            trim_end_char(u, '"') == trim_end_char(t@.subrange(a as int, b as int), '"'),
        decreases b,
    {
        assert(t@.subrange(a as int, b as int).drop_last() =~= t@.subrange(a as int, b - 1));
        b -= 1;
    }
    slice_chars(t, a, b)
}

fn parse_array(v: &[char]) -> (r: Result<Vec<String>, String>)
    ensures
        match r {
            Ok(a) => array_spec(v@) == Ok::<Seq<Seq<char>>, Seq<char>>(strings_view(a@)),
            Err(e) => array_spec(v@) == Err::<Seq<Seq<char>>, Seq<char>>(e@),
        },
{
    let t = trim_chars(v);
    let n = t.len();
    if !(n > 0 && t[0] == '[' && t[n - 1] == ']') {
        return Err(error_with("expected array, got: ", t.as_slice()));
    }
    let inner = slice_chars(t.as_slice(), 1, n - 1);
    let pieces = split_chars(inner.as_slice(), ',');
    let ghost ps = split_on(inner@, ',');
    assert(pieces@.len() == ps.len());
    let mut out: Vec<String> = Vec::new();
    let mut i: usize = 0;
    while i < pieces.len()
        invariant
            i <= pieces@.len() == ps.len(),
            ps == split_on(inner@, ','),
            forall|j: int| 0 <= j < pieces@.len() ==> (#[trigger] pieces@[j])@ == ps[j],
            strings_view(out@) == array_items(ps.take(i as int)),
        decreases pieces.len() - i,
    {
        let item = trim_chars(pieces[i].as_slice());
        assert(ps.take(i + 1).drop_last() =~= ps.take(i as int));
        assert(ps.take(i + 1).last() == ps[i as int]);
        if item.len() > 0 {
            let q = strip_quotes(item.as_slice());
            let ghost before = strings_view(out@);
            out.push(string_from_chars(q.as_slice()));
            assert(strings_view(out@) =~= before.push(q@));
        }
        i += 1;
    }
    assert(ps.take(ps.len() as int) =~= ps);
    Ok(out)
}

fn unescape_exec(s: &[char]) -> (r: Vec<char>)
    ensures
        r@ == unescape(s@),
{
    let n = s.len();
    let mut out: Vec<char> = Vec::new();
    let mut i: usize = 0;
    assert(s@.skip(0) =~= s@);
    while i < n
        invariant
            i <= n == s@.len(),
            unescape(s@) == out@ + unescape(s@.skip(i as int)),
        decreases n - i,
    {
        let ghost rest = s@.skip(i as int);
        if i + 1 < n && s[i] == '\\' && s[i + 1] == '"' {
            out.push('"');
            assert(rest.skip(2) =~= s@.skip(i + 2));
            i += 2;
        } else {
            out.push(s[i]);
            assert(rest.drop_first() =~= s@.skip(i + 1));
            i += 1;
        }
    }
    assert(s@.skip(n as int) =~= Seq::<char>::empty());
    assert(out@ =~= unescape(s@));
    out
}

fn parse_string(v: &[char]) -> (r: Result<String, String>)
    ensures
        match r {
            Ok(x) => string_spec(v@) == Ok::<Seq<char>, Seq<char>>(x@),
            Err(e) => string_spec(v@) == Err::<Seq<char>, Seq<char>>(e@),
        },
{
    let t = trim_chars(v);
    let n = t.len();
    if n < 2 || t[0] != '"' || t[n - 1] != '"' {
        return Err(error_with("expected string, got: ", t.as_slice()));
    }
    let inner = slice_chars(t.as_slice(), 1, n - 1);
    let u = unescape_exec(inner.as_slice());
    Ok(string_from_chars(u.as_slice()))
}

fn index_key(ix: IndexSettings, key: &[char], value: &[char]) -> (r: Result<IndexSettings, String>)
    ensures
        match r {
            Ok(x) => index_key_spec(ix, key@, value@) == Ok::<IndexSettings, Seq<char>>(x),
            Err(e) => index_key_spec(ix, key@, value@) == Err::<IndexSettings, Seq<char>>(e@),
        },
{
    reveal(index_key_spec);
    if eq_lit(key, "operator_precedence") {
        if eq_lit(value, "or_and") {
            return Ok(IndexSettings { precedence: OperatorOrder::OrAnd, ..ix });
        } else if eq_lit(value, "and_or") {
            return Ok(IndexSettings { precedence: OperatorOrder::AndOr, ..ix });
        } else {
            return Err(error_with("unknown precedence: ", value));
        }
    }
    let size = eq_lit(key, "size");
    let modified = eq_lit(key, "date_modified");
    let created = eq_lit(key, "date_created");
    let accessed = eq_lit(key, "date_accessed");
    let permissions = eq_lit(key, "permissions");
    let fast = eq_lit(key, "fast_extension");
    let wildcards = eq_lit(key, "whole_filename_wildcards");
    if !(size || modified || created || accessed || permissions || fast || wildcards) {
        return Ok(ix);
    }
    let b = parse_bool(value)?;
    Ok(
        if size {
            IndexSettings { size: b, ..ix }
        } else if modified {
            IndexSettings { date_modified: b, ..ix }
        } else if created {
            IndexSettings { date_created: b, ..ix }
        } else if accessed {
            IndexSettings { date_accessed: b, ..ix }
        } else if permissions {
            IndexSettings { permissions: b, ..ix }
        } else if fast {
            IndexSettings { fast_extension: b, ..ix }
        } else {
            IndexSettings { whole_filename_wildcards: b, ..ix }
        },
    )
}


/// What is indexed, as the reader holds it.
pub struct Scope {
    pub roots: Vec<String>,
    pub fstypes: Vec<String>,
    pub hidden: bool,
    pub patterns: Vec<String>,
    pub folders: Vec<String>,
    pub include_only: Vec<String>,
}

impl View for Scope {
    type V = ScopeView;

    open spec fn view(&self) -> ScopeView {
        ScopeView {
            roots: strings_view(self.roots@),
            fstypes: strings_view(self.fstypes@),
            hidden: self.hidden,
            patterns: strings_view(self.patterns@),
            folders: strings_view(self.folders@),
            include_only: strings_view(self.include_only@),
        }
    }
}

/// The keyboard settings, as the reader holds them.
pub struct Keys {
    pub new_window: String,
    pub show_window: String,
    pub toggle_window: String,
    pub global: Vec<String>,
    pub search_edit: Vec<String>,
    pub result_list: Vec<String>,
}

impl View for Keys {
    type V = KeysView;

    open spec fn view(&self) -> KeysView {
        KeysView {
            new_window: self.new_window@,
            show_window: self.show_window@,
            toggle_window: self.toggle_window@,
            global: strings_view(self.global@),
            search_edit: strings_view(self.search_edit@),
            result_list: strings_view(self.result_list@),
        }
    }
}

fn roots_key(sc: &mut Scope, key: &[char], value: &[char]) -> (r: Result<(), String>)
    ensures
        match r {
            Ok(()) => roots_key_spec(old(sc)@, key@, value@) == Ok::<ScopeView, Seq<char>>(final(sc)@),
            Err(e) => roots_key_spec(old(sc)@, key@, value@) == Err::<ScopeView, Seq<char>>(e@),
        },
{
    reveal(roots_key_spec);
    if eq_lit(key, "auto_detect") {
        let b = parse_bool(value)?;
        if !b {
            sc.roots = empty_strings();
        }
    } else if eq_lit(key, "include") {
        sc.roots = parse_array(value)?;
    } else if eq_lit(key, "exclude_fstypes") {
        sc.fstypes = parse_array(value)?;
    }
    Ok(())
}

fn exclude_key(sc: &mut Scope, key: &[char], value: &[char]) -> (r: Result<(), String>)
    ensures
        match r {
            Ok(()) => exclude_key_spec(old(sc)@, key@, value@) == Ok::<ScopeView, Seq<char>>(final(sc)@),
            Err(e) => exclude_key_spec(old(sc)@, key@, value@) == Err::<ScopeView, Seq<char>>(e@),
        },
{
    reveal(exclude_key_spec);
    if eq_lit(key, "hidden_files") {
        sc.hidden = parse_bool(value)?;
    } else if eq_lit(key, "patterns") {
        sc.patterns = parse_array(value)?;
    } else if eq_lit(key, "folders") {
        sc.folders = parse_array(value)?;
    } else if eq_lit(key, "include_only") {
        sc.include_only = parse_array(value)?;
    }
    Ok(())
}

fn keyboard_key(k: &mut Keys, key: &[char], value: &[char]) -> (r: Result<(), String>)
    ensures
        match r {
            Ok(()) => keyboard_key_spec(old(k)@, key@, value@) == Ok::<KeysView, Seq<char>>(final(k)@),
            Err(e) => keyboard_key_spec(old(k)@, key@, value@) == Err::<KeysView, Seq<char>>(e@),
        },
{
    reveal(keyboard_key_spec);
    if eq_lit(key, "new_window_hotkey") {
        k.new_window = parse_string(value)?;
    } else if eq_lit(key, "show_window_hotkey") {
        k.show_window = parse_string(value)?;
    } else if eq_lit(key, "toggle_window_hotkey") {
        k.toggle_window = parse_string(value)?;
    }
    Ok(())
}

fn shortcut_key(k: &mut Keys, key: &[char], value: &[char]) -> (r: Result<(), String>)
    ensures
        match r {
            Ok(()) => shortcut_key_spec(old(k)@, key@, value@) == Ok::<KeysView, Seq<char>>(final(k)@),
            Err(e) => shortcut_key_spec(old(k)@, key@, value@) == Err::<KeysView, Seq<char>>(e@),
        },
{
    reveal(shortcut_key_spec);
    if eq_lit(key, "global") {
        k.global = parse_array(value)?;
    } else if eq_lit(key, "search_edit") {
        k.search_edit = parse_array(value)?;
    } else if eq_lit(key, "result_list") {
        k.result_list = parse_array(value)?;
    }
    Ok(())
}


/// The state of reading the file, as the reader holds it.
pub struct Reader {
    pub index: IndexSettings,
    pub scope: Scope,
    pub interval: u64,
    pub keys: Keys,
    pub section: Vec<char>,
}

impl View for Reader {
    type V = LoadState;

    open spec fn view(&self) -> LoadState {
        LoadState {
            index: self.index,
            scope: self.scope@,
            interval: self.interval,
            keys: self.keys@,
            section: self.section@,
        }
    }
}

fn apply_entry(rd: &mut Reader, key: &[char], value: &[char]) -> (r: Result<(), String>)
    ensures
        match r {
            Ok(()) => entry_spec(old(rd)@, key@, value@) == Ok::<LoadState, Seq<char>>(final(rd)@),
            Err(e) => entry_spec(old(rd)@, key@, value@) == Err::<LoadState, Seq<char>>(e@),
        },
{
    reveal(entry_spec);
    let sec = rd.section.as_slice();
    if eq_lit(sec, "index") {
        rd.index = index_key(rd.index, key, value)?;
    } else if eq_lit(sec, "roots") {
        roots_key(&mut rd.scope, key, value)?;
    } else if eq_lit(sec, "exclude") {
        exclude_key(&mut rd.scope, key, value)?;
    } else if eq_lit(sec, "polling") && eq_lit(key, "interval_secs") {
        match parse_u64(value) {
            Some(n) => rd.interval = n,
            None => {
                return Err(string_of("invalid interval"));
            },
        }
    } else if eq_lit(sec, "keyboard") {
        keyboard_key(&mut rd.keys, key, value)?;
    } else if eq_lit(sec, "keyboard.shortcuts") {
        shortcut_key(&mut rd.keys, key, value)?;
    }
    Ok(())
}

fn apply_line(rd: &mut Reader, raw: &[char], n: usize) -> (r: Result<(), String>)
    ensures
        match r {
            Ok(()) => line_spec(old(rd)@, raw@, n as nat) == Ok::<LoadState, Seq<char>>(final(rd)@),
            Err(e) => line_spec(old(rd)@, raw@, n as nat) == Err::<LoadState, Seq<char>>(e@),
        },
{
    reveal(line_spec);
    let line = trim_chars(before_hash_exec(raw).as_slice());
    let len = line.len();
    if len == 0 {
        return Ok(());
    }
    if line[0] == '[' && line[len - 1] == ']' {
        rd.section = slice_chars(line.as_slice(), 1, len - 1);
        return Ok(());
    }
    proof {
        lemma_index_of(line@, '=');
    }
    match find_char(line.as_slice(), '=') {
        None => {
            let mut m = string_of("expected key=value at line ");
            push_decimal(&mut m, n as u64);
            Err(m)
        },
        Some(k) => {
            let key = trim_chars(slice_chars(line.as_slice(), 0, k).as_slice());
            let value = trim_chars(slice_chars(line.as_slice(), k + 1, len).as_slice());
            assert(line@.subrange(0, k as int) =~= line@.take(k as int));
            assert(line@.subrange(k + 1, len as int) =~= line@.skip(k + 1));
            apply_entry(rd, key.as_slice(), value.as_slice())
        },
    }
}

fn entry_shortcut_exec(entry: &String, scope: KeyboardScope) -> (r: Result<
    KeyboardShortcutConfig,
    String,
>)
    ensures
        match r {
            Ok(x) => entry_shortcut(entry@, scope) == Ok::<ShortcutView, Seq<char>>(x@),
            Err(e) => entry_shortcut(entry@, scope) == Err::<ShortcutView, Seq<char>>(e@),
        },
{
    let c = chars_of(entry.as_str());
    let n = c.len();
    proof {
        lemma_index_of(c@, '|');
    }
    match find_char(c.as_slice(), '|') {
        None => Err(error_with("invalid keyboard shortcut entry: ", c.as_slice())),
        Some(k) => {
            let id = trim_chars(slice_chars(c.as_slice(), 0, k).as_slice());
            let acc = trim_chars(slice_chars(c.as_slice(), k + 1, n).as_slice());
            assert(c@.subrange(0, k as int) =~= c@.take(k as int));
            assert(c@.subrange(k + 1, n as int) =~= c@.skip(k + 1));
            Ok(
                KeyboardShortcutConfig {
                    command_id: string_from_chars(id.as_slice()),
                    scope,
                    accelerator: string_from_chars(acc.as_slice()),
                },
            )
        },
    }
}

fn push_scope_shortcuts(out: &mut Vec<KeyboardShortcutConfig>, entries: &Vec<String>, scope: KeyboardScope) -> (r:
    Result<(), String>)
    ensures
        match r {
            Ok(()) => scope_shortcuts(strings_view(entries@), scope) matches Ok(v) && shortcuts_view(
                final(out)@,
            ) == shortcuts_view(old(out)@) + v,
            Err(e) => scope_shortcuts(strings_view(entries@), scope) == Err::<Seq<ShortcutView>, Seq<char>>(e@),
        },
{
    let ghost es = strings_view(entries@);
    let ghost o0 = shortcuts_view(out@);
    let mut i: usize = 0;
    assert(es.take(0) =~= Seq::<Seq<char>>::empty());
    assert(shortcuts_view(out@) =~= o0 + Seq::<ShortcutView>::empty());
    while i < entries.len()
        invariant
            i <= entries@.len(),
            es == strings_view(entries@),
            scope_shortcuts(es.take(i as int), scope) matches Ok(v) && shortcuts_view(out@) == o0 + v,
        decreases entries.len() - i,
    {
        assert(es.take(i + 1).drop_last() =~= es.take(i as int));
        assert(es.take(i + 1).last() == entries@[i as int]@);
        let ghost before = shortcuts_view(out@);
        match entry_shortcut_exec(&entries[i], scope) {
            Ok(x) => {
                out.push(x);
                assert(shortcuts_view(out@) =~= before.push(x@));
                assert(shortcuts_view(out@) =~= o0 + scope_shortcuts(es.take(i + 1), scope)->Ok_0);
            },
            Err(e) => {
                proof {
                    lemma_scope_shortcuts_stuck(es, scope, (i + 1) as int);
                }
                assert(es.take(es.len() as int) =~= es);
                return Err(e);
            },
        }
        i += 1;
    }
    assert(es.take(es.len() as int) =~= es);
    Ok(())
}

/// Once a prefix of the entries fails, so do all the entries, with the same error.
proof fn lemma_scope_shortcuts_stuck(es: Seq<Seq<char>>, scope: KeyboardScope, m: int)
    requires
        0 <= m <= es.len(),
        scope_shortcuts(es.take(m), scope) is Err,
    ensures
        scope_shortcuts(es, scope) == scope_shortcuts(es.take(m), scope),
    decreases es.len() - m,
{
    if m < es.len() {
        assert(es.take(m + 1).drop_last() =~= es.take(m));
        lemma_scope_shortcuts_stuck(es, scope, m + 1);
    } else {
        assert(es.take(m) =~= es);
    }
}

impl Config {
    /// The settings that the text of a settings file gives, starting from the defaults;
    /// `home` is the user's home directory, where known.
    pub fn parse(text: &str, home: Option<String>) -> (r: Result<Config, String>)
        ensures
            match r {
                Ok(c) => parse_spec(text@, opt_view(home)) == Ok::<ConfigView, Seq<char>>(c@),
                Err(e) => parse_spec(text@, opt_view(home)) == Err::<ConfigView, Seq<char>>(e@),
            },
    {
        let ghost hv = opt_view(home);
        let base = Config::default_config(home);
        let mut rd = Reader {
            index: IndexSettings {
                size: true,
                date_modified: false,
                date_created: false,
                date_accessed: false,
                permissions: false,
                fast_extension: false,
                whole_filename_wildcards: true,
                precedence: OperatorOrder::OrAnd,
            },
            scope: Scope {
                roots: base.roots,
                fstypes: base.exclude_fstypes,
                hidden: false,
                patterns: empty_strings(),
                folders: empty_strings(),
                include_only: empty_strings(),
            },
            interval: 300,
            keys: Keys {
                new_window: string_of("Ctrl+N"),
                show_window: String::new(),
                toggle_window: String::new(),
                global: empty_strings(),
                search_edit: empty_strings(),
                result_list: empty_strings(),
            },
            section: Vec::new(),
        };
        assert(rd@.section =~= Seq::<char>::empty());
        assert(rd@ == initial_state(hv));
        let c = chars_of(text);
        let lines = split_chars(c.as_slice(), '\n');
        let ghost ls = split_on(text@, '\n');
        let mut k: usize = 0;
        while k < lines.len()
            invariant
                k <= lines@.len() == ls.len(),
                hv == opt_view(home),
                ls == split_on(text@, '\n'),
                forall|j: int| 0 <= j < lines@.len() ==> (#[trigger] lines@[j])@ == ls[j],
                lines_spec(initial_state(hv), ls, 0) == lines_spec(rd@, ls, k as int),
            decreases lines.len() - k,
        {
            let ghost before = rd@;
            match apply_line(&mut rd, lines[k].as_slice(), k + 1) {
                Ok(()) => {},
                Err(e) => {
                    assert(lines_spec(before, ls, k as int) == Err::<LoadState, Seq<char>>(e@));
                    return Err(e);
                },
            }
            k += 1;
        }
        let mut shortcuts: Vec<KeyboardShortcutConfig> = Vec::new();
        assert(shortcuts_view(shortcuts@) =~= Seq::<ShortcutView>::empty());
        push_scope_shortcuts(&mut shortcuts, &rd.keys.global, KeyboardScope::Global)?;
        push_scope_shortcuts(&mut shortcuts, &rd.keys.search_edit, KeyboardScope::SearchEdit)?;
        push_scope_shortcuts(&mut shortcuts, &rd.keys.result_list, KeyboardScope::ResultList)?;
        let ghost st = rd@;
        let cfg = Config {
            roots: rd.scope.roots,
            exclude_fstypes: rd.scope.fstypes,
            exclude_hidden: rd.scope.hidden,
            exclude_patterns: rd.scope.patterns,
            exclude_folders: rd.scope.folders,
            include_only: rd.scope.include_only,
            index_size: rd.index.size,
            index_date_modified: rd.index.date_modified,
            index_date_created: rd.index.date_created,
            index_date_accessed: rd.index.date_accessed,
            index_permissions: rd.index.permissions,
            fast_sort_extension: rd.index.fast_extension,
            fast_sort_path: false,
            whole_filename_wildcards: rd.index.whole_filename_wildcards,
            operator_precedence: rd.index.precedence,
            poll_interval_secs: rd.interval,
            keyboard: KeyboardConfig {
                new_window_hotkey: rd.keys.new_window,
                show_window_hotkey: rd.keys.show_window,
                toggle_window_hotkey: rd.keys.toggle_window,
                command_shortcuts: shortcuts,
            },
        };
        assert(cfg@ == config_of(st, all_shortcuts(st.keys)->Ok_0));
        Ok(cfg)
    }

    /// The settings from the settings file's text, or the defaults where there is no file
    /// (`text` is `None`).
    pub fn load(text: Option<&str>, home: Option<String>) -> (r: Result<Config, String>)
        ensures
            text is None ==> (r matches Ok(c) && c@ == default_view(opt_view(home))),
            text matches Some(t) ==> match r {
                Ok(c) => parse_spec(t@, opt_view(home)) == Ok::<ConfigView, Seq<char>>(c@),
                Err(e) => parse_spec(t@, opt_view(home)) == Err::<ConfigView, Seq<char>>(e@),
            },
    {
        match text {
            None => Ok(Config::default_config(home)),
            Some(t) => Config::parse(t, home),
        }
    }
}


pub open spec fn bool_text(b: bool) -> Seq<char> {
    if b {
        "true"@
    } else {
        "false"@
    }
}

/// `s` with each `"` written as `\"`.
pub open spec fn escape_quotes(s: Seq<char>) -> Seq<char>
    decreases s.len(),
{
    if s.len() == 0 {
        s
    } else {
        escape_quotes(s.drop_last()) + if s.last() == '"' {
            "\\\""@
        } else {
            seq![s.last()]
        }
    }
}

pub open spec fn quoted(s: Seq<char>) -> Seq<char> {
    "\""@ + escape_quotes(s) + "\""@
}

pub open spec fn quoted_list(v: Seq<Seq<char>>) -> Seq<char>
    decreases v.len(),
{
    if v.len() == 0 {
        Seq::empty()
    } else if v.len() == 1 {
        quoted(v[0])
    } else {
        quoted_list(v.drop_last()) + ", "@ + quoted(v.last())
    }
}

/// An array of quoted strings.
pub open spec fn array_text(v: Seq<Seq<char>>) -> Seq<char> {
    "["@ + quoted_list(v) + "]"@
}

/// The entries `command|accelerator` of the shortcuts of one scope, in order.
pub open spec fn scope_entries(v: Seq<ShortcutView>, scope: KeyboardScope) -> Seq<Seq<char>>
    decreases v.len(),
{
    if v.len() == 0 {
        Seq::empty()
    } else {
        let rest = scope_entries(v.drop_last(), scope);
        if v.last().scope == scope {
            rest.push(v.last().command_id + "|"@ + v.last().accelerator)
        } else {
            rest
        }
    }
}

pub open spec fn precedence_text(p: OperatorOrder) -> Seq<char> {
    match p {
        OperatorOrder::OrAnd => "or_and"@,
        OperatorOrder::AndOr => "and_or"@,
    }
}

/// A `key = value` line.
#[verifier::opaque]
pub open spec fn kv(key: Seq<char>, value: Seq<char>) -> Seq<char> {
    key + " = "@ + value
}

/// A `[name]` line that starts a section.
#[verifier::opaque]
pub open spec fn header(name: Seq<char>) -> Seq<char> {
    seq!['['] + name + seq![']']
}

/// Lines, each followed by a newline.
pub open spec fn text_of_lines(l: Seq<Seq<char>>) -> Seq<char>
    decreases l.len(),
{
    if l.len() == 0 {
        Seq::empty()
    } else {
        text_of_lines(l.drop_last()) + l.last() + seq!['\n']
    }
}

pub open spec fn index_lines(ix: IndexSettings) -> Seq<Seq<char>> {
    seq![
        header("index"@),
        kv("size"@, bool_text(ix.size)),
        kv("date_modified"@, bool_text(ix.date_modified)),
        kv("date_created"@, bool_text(ix.date_created)),
        kv("date_accessed"@, bool_text(ix.date_accessed)),
        kv("permissions"@, bool_text(ix.permissions)),
        kv("fast_extension"@, bool_text(ix.fast_extension)),
        kv("whole_filename_wildcards"@, bool_text(ix.whole_filename_wildcards)),
        kv("operator_precedence"@, precedence_text(ix.precedence)),
        Seq::empty(),
    ]
}

pub open spec fn scope_lines(c: ConfigView) -> Seq<Seq<char>> {
    seq![
        header("roots"@),
        kv("auto_detect"@, bool_text(c.roots.len() == 0)),
        kv("include"@, array_text(c.roots)),
        kv("exclude_fstypes"@, array_text(c.exclude_fstypes)),
        Seq::empty(),
        header("exclude"@),
        kv("hidden_files"@, bool_text(c.exclude_hidden)),
        kv("patterns"@, array_text(c.exclude_patterns)),
        kv("folders"@, array_text(c.exclude_folders)),
        kv("include_only"@, array_text(c.include_only)),
        Seq::empty(),
        header("polling"@),
        kv("interval_secs"@, decimal(c.poll_interval_secs as nat)),
        Seq::empty(),
    ]
}

pub open spec fn keyboard_lines(k: KeyboardView) -> Seq<Seq<char>> {
    seq![
        header("keyboard"@),
        kv("new_window_hotkey"@, quoted(k.new_window_hotkey)),
        kv("show_window_hotkey"@, quoted(k.show_window_hotkey)),
        kv("toggle_window_hotkey"@, quoted(k.toggle_window_hotkey)),
        Seq::empty(),
        header("keyboard.shortcuts"@),
        kv("global"@, array_text(scope_entries(k.command_shortcuts, KeyboardScope::Global))),
        kv("search_edit"@, array_text(scope_entries(k.command_shortcuts, KeyboardScope::SearchEdit))),
        kv("result_list"@, array_text(scope_entries(k.command_shortcuts, KeyboardScope::ResultList))),
    ]
}

/// The lines of the settings file that `to_toml` writes.
pub open spec fn file_lines(c: ConfigView) -> Seq<Seq<char>> {
    index_lines(c.index) + scope_lines(c) + keyboard_lines(c.keyboard)
}

/// The settings written as a settings file.
pub open spec fn toml_text(c: ConfigView) -> Seq<char> {
    text_of_lines(file_lines(c))
}

fn push_bool(s: &mut String, b: bool)
    ensures
        final(s)@ == old(s)@ + bool_text(b),
{
    if b {
        push_str(s, "true");
    } else {
        push_str(s, "false");
    }
}

fn push_quoted(s: &mut String, v: &str)
    ensures
        final(s)@ == old(s)@ + quoted(v@),
{
    let c = chars_of(v);
    let ghost s0 = s@;
    push_str(s, "\"");
    let mut i: usize = 0;
    while i < c.len()
        invariant
            i <= c@.len(),
            c@ == v@,
            s@ == s0 + "\""@ + escape_quotes(c@.take(i as int)),
        decreases c.len() - i,
    {
        assert(c@.take(i + 1).drop_last() =~= c@.take(i as int));
        if c[i] == '"' {
            push_str(s, "\\\"");
        } else {
            push_char(s, c[i]);
        }
        assert(s@ =~= s0 + "\""@ + escape_quotes(c@.take(i + 1)));
        i += 1;
    }
    assert(c@.take(c@.len() as int) =~= c@);
    push_str(s, "\"");
    assert(s@ =~= s0 + quoted(v@));
}

fn push_array(s: &mut String, v: &Vec<String>)
    ensures
        final(s)@ == old(s)@ + array_text(strings_view(v@)),
{
    let ghost s0 = s@;
    push_str(s, "[");
    let mut i: usize = 0;
    while i < v.len()
        invariant
            i <= v@.len(),
            s@ == s0 + "["@ + quoted_list(strings_view(v@.take(i as int))),
        decreases v.len() - i,
    {
        let ghost w = strings_view(v@.take(i + 1));
        assert(w.drop_last() =~= strings_view(v@.take(i as int)));
        if i > 0 {
            push_str(s, ", ");
        } else {
            assert(strings_view(v@.take(0)) =~= Seq::<Seq<char>>::empty());
        }
        push_quoted(s, v[i].as_str());
        assert(s@ =~= s0 + "["@ + quoted_list(w));
        i += 1;
    }
    assert(v@.take(v@.len() as int) =~= v@);
    push_str(s, "]");
    assert(s@ =~= s0 + array_text(strings_view(v@)));
}

fn entries_of(v: &Vec<KeyboardShortcutConfig>, scope: KeyboardScope) -> (r: Vec<String>)
    ensures
        strings_view(r@) == scope_entries(shortcuts_view(v@), scope),
{
    let mut out: Vec<String> = Vec::new();
    let mut i: usize = 0;
    assert(strings_view(out@) =~= scope_entries(shortcuts_view(v@.take(0)), scope));
    while i < v.len()
        invariant
            i <= v@.len(),
            strings_view(out@) == scope_entries(shortcuts_view(v@.take(i as int)), scope),
        decreases v.len() - i,
    {
        let ghost w = shortcuts_view(v@.take(i + 1));
        assert(w.drop_last() =~= shortcuts_view(v@.take(i as int)));
        assert(w.last() == v@[i as int]@);
        if v[i].scope == scope {
            let mut e = v[i].command_id.clone();
            push_str(&mut e, "|");
            push_str(&mut e, v[i].accelerator.as_str());
            let ghost before = strings_view(out@);
            out.push(e);
            assert(strings_view(out@) =~= before.push(e@));
        }
        i += 1;
    }
    assert(v@.take(v@.len() as int) =~= v@);
    out
}

fn kv_line(key: &str, value: &str) -> (r: String)
    ensures
        r@ == kv(key@, value@),
{
    let mut s = string_of(key);
    push_str(&mut s, " = ");
    push_str(&mut s, value);
    proof {
        reveal(kv);
    }
    s
}

fn header_line(name: &str) -> (r: String)
    ensures
        r@ == header(name@),
{
    let mut s = String::new();
    push_char(&mut s, '[');
    push_str(&mut s, name);
    push_char(&mut s, ']');
    proof {
        reveal(header);
    }
    assert(s@ =~= header(name@));
    s
}

fn bool_string(b: bool) -> (r: String)
    ensures
        r@ == bool_text(b),
{
    let mut s = String::new();
    push_bool(&mut s, b);
    assert(s@ =~= bool_text(b));
    s
}

fn array_string(v: &Vec<String>) -> (r: String)
    ensures
        r@ == array_text(strings_view(v@)),
{
    let mut s = String::new();
    push_array(&mut s, v);
    assert(s@ =~= array_text(strings_view(v@)));
    s
}

fn quoted_string(v: &str) -> (r: String)
    ensures
        r@ == quoted(v@),
{
    let mut s = String::new();
    push_quoted(&mut s, v);
    assert(s@ =~= quoted(v@));
    s
}

fn index_lines_of(ix: IndexSettings) -> (r: Vec<String>)
    ensures
        strings_view(r@) == index_lines(ix),
{
    let mut v: Vec<String> = Vec::new();
    v.push(header_line("index"));
    v.push(kv_line("size", bool_string(ix.size).as_str()));
    v.push(kv_line("date_modified", bool_string(ix.date_modified).as_str()));
    v.push(kv_line("date_created", bool_string(ix.date_created).as_str()));
    v.push(kv_line("date_accessed", bool_string(ix.date_accessed).as_str()));
    v.push(kv_line("permissions", bool_string(ix.permissions).as_str()));
    v.push(kv_line("fast_extension", bool_string(ix.fast_extension).as_str()));
    v.push(kv_line("whole_filename_wildcards", bool_string(ix.whole_filename_wildcards).as_str()));
    let p = match ix.precedence {
        OperatorOrder::OrAnd => "or_and",
        OperatorOrder::AndOr => "and_or",
    };
    v.push(kv_line("operator_precedence", p));
    v.push(String::new());
    assert(strings_view(v@) =~= index_lines(ix));
    v
}

fn scope_lines_of(c: &Config) -> (r: Vec<String>)
    ensures
        strings_view(r@) == scope_lines(c@),
{
    let mut v: Vec<String> = Vec::new();
    v.push(header_line("roots"));
    v.push(kv_line("auto_detect", bool_string(c.roots.len() == 0).as_str()));
    v.push(kv_line("include", array_string(&c.roots).as_str()));
    v.push(kv_line("exclude_fstypes", array_string(&c.exclude_fstypes).as_str()));
    v.push(String::new());
    v.push(header_line("exclude"));
    v.push(kv_line("hidden_files", bool_string(c.exclude_hidden).as_str()));
    v.push(kv_line("patterns", array_string(&c.exclude_patterns).as_str()));
    v.push(kv_line("folders", array_string(&c.exclude_folders).as_str()));
    v.push(kv_line("include_only", array_string(&c.include_only).as_str()));
    v.push(String::new());
    v.push(header_line("polling"));
    let mut n = String::new();
    push_decimal(&mut n, c.poll_interval_secs);
    v.push(kv_line("interval_secs", n.as_str()));
    v.push(String::new());
    assert(strings_view(v@) =~= scope_lines(c@));
    v
}

fn keyboard_lines_of(k: &KeyboardConfig) -> (r: Vec<String>)
    ensures
        strings_view(r@) == keyboard_lines(k@),
{
    let mut v: Vec<String> = Vec::new();
    v.push(header_line("keyboard"));
    v.push(kv_line("new_window_hotkey", quoted_string(k.new_window_hotkey.as_str()).as_str()));
    v.push(kv_line("show_window_hotkey", quoted_string(k.show_window_hotkey.as_str()).as_str()));
    v.push(kv_line("toggle_window_hotkey", quoted_string(k.toggle_window_hotkey.as_str()).as_str()));
    v.push(String::new());
    v.push(header_line("keyboard.shortcuts"));
    let g = entries_of(&k.command_shortcuts, KeyboardScope::Global);
    v.push(kv_line("global", array_string(&g).as_str()));
    let se = entries_of(&k.command_shortcuts, KeyboardScope::SearchEdit);
    v.push(kv_line("search_edit", array_string(&se).as_str()));
    let rl = entries_of(&k.command_shortcuts, KeyboardScope::ResultList);
    v.push(kv_line("result_list", array_string(&rl).as_str()));
    assert(strings_view(v@) =~= keyboard_lines(k@));
    v
}

fn join_lines(v: &Vec<String>) -> (r: String)
    ensures
        r@ == text_of_lines(strings_view(v@)),
{
    let mut s = String::new();
    let mut i: usize = 0;
    while i < v.len()
        invariant
            i <= v@.len(),
            s@ == text_of_lines(strings_view(v@.take(i as int))),
        decreases v.len() - i,
    {
        assert(strings_view(v@.take(i + 1)).drop_last() =~= strings_view(v@.take(i as int)));
        push_str(&mut s, v[i].as_str());
        push_char(&mut s, '\n');
        i += 1;
    }
    assert(v@.take(v@.len() as int) =~= v@);
    s
}

impl Config {
    /// The settings written as a settings file.
    pub fn to_toml(&self) -> (r: String)
        ensures
            r@ == toml_text(self@),
    {
        let mut lines = index_lines_of(IndexSettings {
            size: self.index_size,
            date_modified: self.index_date_modified,
            date_created: self.index_date_created,
            date_accessed: self.index_date_accessed,
            permissions: self.index_permissions,
            fast_extension: self.fast_sort_extension,
            whole_filename_wildcards: self.whole_filename_wildcards,
            precedence: self.operator_precedence,
        });
        let ghost a = lines@;
        let mut b = scope_lines_of(self);
        let ghost bv = b@;
        lines.append(&mut b);
        let mut c = keyboard_lines_of(&self.keyboard);
        let ghost cv = c@;
        lines.append(&mut c);
        assert(lines@ == a + bv + cv);
        assert(strings_view(lines@) =~= file_lines(self@));
        join_lines(&lines)
    }
}


/// Text without a double quote.
pub open spec fn quote_free(s: Seq<char>) -> bool {
    forall|i: int| 0 <= i < s.len() ==> s[i] != '"'
}

/// An item that reads back out of an array: no quote and no comma.
pub open spec fn plain_item(s: Seq<char>) -> bool {
    &&& quote_free(s)
    &&& forall|i: int| 0 <= i < s.len() ==> s[i] != ','
}

proof fn lemma_escape_quote_free(s: Seq<char>)
    requires
        quote_free(s),
    ensures
        escape_quotes(s) == s,
    decreases s.len(),
{
    if s.len() > 0 {
        assert(quote_free(s.drop_last()));
        lemma_escape_quote_free(s.drop_last());
        assert(s.drop_last() + seq![s.last()] =~= s);
    }
}

proof fn lemma_quoted_plain(s: Seq<char>)
    requires
        quote_free(s),
    ensures
        quoted(s) == seq!['"'] + s + seq!['"'],
{
    reveal_strlit("\"");
    lemma_escape_quote_free(s);
    assert("\""@ =~= seq!['"']);
}

/// Trimming leaves text alone that starts and ends with a non-space.
proof fn lemma_trim_fixed(t: Seq<char>)
    requires
        t.len() > 0,
        !crate::text::is_space(t[0]),
        !crate::text::is_space(t.last()),
    ensures
        trim(t) == t,
{
}

/// `"` written as `\"`, anything else as itself.
pub open spec fn escape_char(c: char) -> Seq<char> {
    if c == '"' {
        seq!['\\', '"']
    } else {
        seq![c]
    }
}

proof fn lemma_escape_front(c: char, r: Seq<char>)
    ensures
        escape_quotes(seq![c] + r) == escape_char(c) + escape_quotes(r),
    decreases r.len(),
{
    reveal_strlit("\\\"");
    assert("\\\""@ =~= seq!['\\', '"']);
    if r.len() == 0 {
        assert(seq![c] + r =~= seq![c]);
        assert(seq![c].drop_last() =~= Seq::<char>::empty());
        assert(seq![c].last() == c);
        assert(escape_quotes(seq![c].drop_last()) == Seq::<char>::empty());
        assert(escape_quotes(seq![c]) =~= escape_char(c));
        assert(escape_char(c) + escape_quotes(r) =~= escape_char(c));
    } else {
        lemma_escape_front(c, r.drop_last());
        assert((seq![c] + r).drop_last() =~= seq![c] + r.drop_last());
        assert((seq![c] + r).last() == r.last());
        assert(escape_quotes(seq![c] + r) =~= escape_char(c) + escape_quotes(r));
    }
}

proof fn lemma_unescape_escape(s: Seq<char>)
    ensures
        unescape(escape_quotes(s)) == s,
        escape_quotes(s).len() > 0 ==> escape_quotes(s)[0] != '"',
        escape_quotes(s).len() == 0 ==> s.len() == 0,
    decreases s.len(),
{
    if s.len() > 0 {
        let c = s[0];
        let r = s.drop_first();
        assert(seq![c] + r =~= s);
        lemma_escape_front(c, r);
        lemma_unescape_escape(r);
        let e = escape_quotes(r);
        let t = escape_char(c) + e;
        if c == '"' {
            assert(t.skip(2) =~= e);
        } else {
            assert(t.drop_first() =~= e);
            if c == '\\' && t.len() >= 2 {
                assert(t[1] == e[0]);
            }
        }
        assert(seq![c] + r =~= s);
    }
}

proof fn lemma_escape_clean(s: Seq<char>)
    requires
        clean(s),
    ensures
        clean(escape_quotes(s)),
    decreases s.len(),
{
    if s.len() > 0 {
        assert(clean(s.drop_last()));
        lemma_escape_clean(s.drop_last());
        reveal_strlit("\\\"");
        let a = escape_quotes(s.drop_last());
        let b = if s.last() == '"' { "\\\""@ } else { seq![s.last()] };
        assert forall|i: int| 0 <= i < a.len() + b.len() implies (a + b)[i] != '\n' && (a + b)[i] != '#' by {
            if i < a.len() {
                assert((a + b)[i] == a[i]);
            } else {
                assert((a + b)[i] == b[i - a.len()]);
            }
        }
    }
}

/// Every hotkey that `to_toml` writes reads back as itself.
pub proof fn law_quoted_string_reads_back(s: Seq<char>)
    ensures
        string_spec(quoted(s)) == Ok::<Seq<char>, Seq<char>>(s),
{
    reveal_strlit("\"");
    let e = escape_quotes(s);
    let t = seq!['"'] + e + seq!['"'];
    assert(quoted(s) =~= t);
    lemma_trim_fixed(t);
    assert(t.subrange(1, t.len() - 1) =~= e);
    lemma_unescape_escape(s);
}

proof fn lemma_split_concat(a: Seq<char>, b: Seq<char>, sep: char, cur: Seq<char>)
    ensures
        crate::text::split_after(a + seq![sep] + b, sep, cur) == crate::text::split_after(a, sep, cur)
            + split_on(b, sep),
    decreases a.len(),
{
    if a.len() == 0 {
        assert(a + seq![sep] + b =~= seq![sep] + b);
        assert((seq![sep] + b).drop_first() =~= b);
    } else {
        assert((a + seq![sep] + b).drop_first() =~= a.drop_first() + seq![sep] + b);
        assert((a + seq![sep] + b)[0] == a[0]);
        if a[0] == sep {
            lemma_split_concat(a.drop_first(), b, sep, Seq::empty());
        } else {
            lemma_split_concat(a.drop_first(), b, sep, cur.push(a[0]));
        }
    }
}

proof fn lemma_split_none(s: Seq<char>, sep: char, cur: Seq<char>)
    requires
        forall|i: int| 0 <= i < s.len() ==> s[i] != sep,
    ensures
        crate::text::split_after(s, sep, cur) == seq![cur + s],
    decreases s.len(),
{
    if s.len() == 0 {
        assert(cur + s =~= cur);
    } else {
        lemma_split_none(s.drop_first(), sep, cur.push(s[0]));
        assert(cur.push(s[0]) + s.drop_first() =~= cur + s);
    }
}

/// The pieces of a written array's inside: the first quoted item, then each later one after
/// its space.
pub open spec fn written_pieces(v: Seq<Seq<char>>) -> Seq<Seq<char>> {
    Seq::new(
        v.len(),
        |i: int|
            if i == 0 {
                seq!['"'] + v[i] + seq!['"']
            } else {
                seq![' '] + seq!['"'] + v[i] + seq!['"']
            },
    )
}

proof fn lemma_split_quoted_list(v: Seq<Seq<char>>)
    requires
        v.len() > 0,
        forall|i: int| 0 <= i < v.len() ==> plain_item(#[trigger] v[i]),
    ensures
        split_on(quoted_list(v), ',') == written_pieces(v),
    decreases v.len(),
{
    reveal_strlit(", ");
    let last = v.last();
    assert(plain_item(v[v.len() - 1]));
    lemma_quoted_plain(last);
    let ql = seq!['"'] + last + seq!['"'];
    assert forall|i: int| 0 <= i < ql.len() implies ql[i] != ',' by {
        if 0 < i < ql.len() - 1 {
            assert(ql[i] == last[i - 1]);
        }
    }
    if v.len() == 1 {
        assert(quoted_list(v) == quoted(v[0]));
        lemma_split_none(ql, ',', Seq::empty());
        assert(Seq::<char>::empty() + ql =~= ql);
        assert(written_pieces(v) =~= seq![ql]);
    } else {
        let w = v.drop_last();
        assert forall|i: int| 0 <= i < w.len() implies plain_item(#[trigger] w[i]) by {
            assert(w[i] == v[i]);
        }
        lemma_split_quoted_list(w);
        let tail = seq![' '] + ql;
        assert(quoted_list(v) =~= quoted_list(w) + seq![','] + tail);
        lemma_split_concat(quoted_list(w), tail, ',', Seq::empty());
        assert forall|i: int| 0 <= i < tail.len() implies tail[i] != ',' by {
            if i > 0 {
                assert(tail[i] == ql[i - 1]);
            }
        }
        lemma_split_none(tail, ',', Seq::empty());
        assert(Seq::<char>::empty() + tail =~= tail);
        assert(tail =~= seq![' '] + seq!['"'] + last + seq!['"']);
        assert(written_pieces(v) =~= written_pieces(w) + seq![tail]);
    }
}

pub open spec fn piece_of(s: Seq<char>, spaced: bool) -> Seq<char> {
    if spaced {
        seq![' '] + seq!['"'] + s + seq!['"']
    } else {
        seq!['"'] + s + seq!['"']
    }
}

proof fn lemma_read_piece(s: Seq<char>, spaced: bool)
    requires
        plain_item(s),
    ensures
        trim(piece_of(s, spaced)).len() > 0,
        trim_end_char(trim_start_char(trim(piece_of(s, spaced)), '"'), '"') == s,
{
    let q = seq!['"'] + s + seq!['"'];
    assert(crate::text::trim_start(q) == q);
    assert(crate::text::trim_end(q) == q);
    if spaced {
        let p = seq![' '] + q;
        assert(p =~= piece_of(s, spaced));
        assert(crate::text::is_space(' '));
        assert(p.drop_first() =~= q);
        assert(crate::text::trim_start(p) == crate::text::trim_start(q));
        assert(trim(p) == q);
    } else {
        assert(q =~= piece_of(s, spaced));
        assert(trim(q) == q);
    }
    assert(q.drop_first() =~= s + seq!['"']);
    assert(trim_start_char(q, '"') == trim_start_char(s + seq!['"'], '"'));
    if s.len() == 0 {
        assert(s + seq!['"'] =~= seq!['"']);
        assert(seq!['"'].drop_first() =~= s);
        assert(trim_start_char(s, '"') == s);
        return;
    }
    assert((s + seq!['"'])[0] == s[0]);
    assert(trim_start_char(s + seq!['"'], '"') == s + seq!['"']);
    assert((s + seq!['"']).drop_last() =~= s);
    assert(trim_end_char(s + seq!['"'], '"') == trim_end_char(s, '"'));
    assert(trim_end_char(s, '"') == s);
}

proof fn lemma_items_of_pieces(v: Seq<Seq<char>>)
    requires
        forall|i: int| 0 <= i < v.len() ==> plain_item(#[trigger] v[i]),
    ensures
        array_items(written_pieces(v)) == v,
    decreases v.len(),
{
    if v.len() > 0 {
        let w = v.drop_last();
        assert forall|i: int| 0 <= i < w.len() implies plain_item(#[trigger] w[i]) by {
            assert(w[i] == v[i]);
        }
        lemma_items_of_pieces(w);
        assert(written_pieces(v).drop_last() =~= written_pieces(w));
        assert(plain_item(v[v.len() - 1]));
        lemma_read_piece(v.last(), v.len() > 1);
        assert(written_pieces(v).last() == piece_of(v.last(), v.len() > 1));
        assert(w.push(v.last()) =~= v);
    }
}

/// Every array of strings that `to_toml` writes reads back as itself, where each string is a
/// plain item.
pub proof fn law_array_reads_back(v: Seq<Seq<char>>)
    requires
        forall|i: int| 0 <= i < v.len() ==> plain_item(#[trigger] v[i]),
    ensures
        array_spec(array_text(v)) == Ok::<Seq<Seq<char>>, Seq<char>>(v),
{
    reveal_strlit("[");
    reveal_strlit("]");
    let t = array_text(v);
    assert(t =~= seq!['['] + quoted_list(v) + seq![']']);
    lemma_trim_fixed(t);
    assert(t.subrange(1, t.len() - 1) =~= quoted_list(v));
    if v.len() == 0 {
        assert(quoted_list(v) =~= Seq::<char>::empty());
        assert(split_on(Seq::<char>::empty(), ',') =~= seq![Seq::<char>::empty()]);
        let e = seq![Seq::<char>::empty()];
        assert(e.drop_last() =~= Seq::<Seq<char>>::empty());
        assert(e.last() == Seq::<char>::empty());
        assert(trim(Seq::<char>::empty()) =~= Seq::<char>::empty());
        assert(array_items(Seq::<Seq<char>>::empty()) =~= Seq::<Seq<char>>::empty());
        assert(array_items(e.drop_last()) =~= Seq::<Seq<char>>::empty());
        assert(array_items(e) =~= Seq::<Seq<char>>::empty());
        assert(v =~= Seq::<Seq<char>>::empty());
    } else {
        lemma_split_quoted_list(v);
        lemma_items_of_pieces(v);
    }
}


pub open spec fn no_newline(s: Seq<char>) -> bool {
    forall|i: int| 0 <= i < s.len() ==> s[i] != '\n'
}

proof fn lemma_split_lines(l: Seq<Seq<char>>, x: Seq<char>)
    requires
        forall|i: int| 0 <= i < l.len() ==> no_newline(#[trigger] l[i]),
        no_newline(x),
    ensures
        split_on(text_of_lines(l) + x, '\n') == l.push(x),
    decreases l.len(),
{
    if l.len() == 0 {
        assert(text_of_lines(l) + x =~= x);
        lemma_split_none(x, '\n', Seq::empty());
        assert(Seq::<char>::empty() + x =~= x);
        assert(l.push(x) =~= seq![x]);
    } else {
        let w = l.drop_last();
        assert forall|i: int| 0 <= i < w.len() implies no_newline(#[trigger] w[i]) by {
            assert(w[i] == l[i]);
        }
        assert(no_newline(l[l.len() - 1]));
        lemma_split_lines(w, l.last());
        let a = text_of_lines(w) + l.last();
        assert(text_of_lines(l) + x =~= a + seq!['\n'] + x);
        lemma_split_concat(a, x, '\n', Seq::empty());
        lemma_split_none(x, '\n', Seq::empty());
        assert(Seq::<char>::empty() + x =~= x);
        assert(w.push(l.last()) =~= l);
    }
}

/// Text that a line can hold as it is: no newline and no `#`.
pub open spec fn clean(s: Seq<char>) -> bool {
    forall|i: int| 0 <= i < s.len() ==> s[i] != '\n' && s[i] != '#'
}

/// A value as `to_toml` writes it: clean, not empty, no white space at either end.
pub open spec fn value_ok(v: Seq<char>) -> bool {
    &&& clean(v)
    &&& v.len() > 0
    &&& !crate::text::is_space(v[0])
    &&& !crate::text::is_space(v.last())
}

/// A key as `to_toml` writes it.
pub open spec fn key_ok(k: Seq<char>) -> bool {
    &&& value_ok(k)
    &&& k[0] != '['
    &&& forall|i: int| 0 <= i < k.len() ==> k[i] != '='
}

proof fn lemma_index_of_absent(s: Seq<char>, c: char)
    requires
        forall|i: int| 0 <= i < s.len() ==> s[i] != c,
    ensures
        index_of(s, c) == -1,
{
    crate::text::lemma_index_of(s, c);
}

proof fn lemma_index_of_after(a: Seq<char>, b: Seq<char>, c: char)
    requires
        forall|i: int| 0 <= i < a.len() ==> a[i] != c,
        index_of(b, c) >= 0,
    ensures
        index_of(a + b, c) == a.len() + index_of(b, c),
    decreases a.len(),
{
    if a.len() == 0 {
        assert(a + b =~= b);
    } else {
        assert((a + b).drop_first() =~= a.drop_first() + b);
        lemma_index_of_after(a.drop_first(), b, c);
    }
}

proof fn lemma_blank_step(st: LoadState, lines: Seq<Seq<char>>, k: int)
    requires
        0 <= k < lines.len(),
        lines[k] == Seq::<char>::empty(),
    ensures
        lines_spec(st, lines, k) == lines_spec(st, lines, k + 1),
{
    reveal(line_spec);
    assert(index_of(Seq::<char>::empty(), '#') == -1);
    assert(trim(Seq::<char>::empty()) =~= Seq::<char>::empty());
}

proof fn lemma_header_step(st: LoadState, lines: Seq<Seq<char>>, k: int, name: Seq<char>)
    requires
        0 <= k < lines.len(),
        lines[k] == header(name),
        clean(name),
    ensures
        lines_spec(st, lines, k) == lines_spec(LoadState { section: name, ..st }, lines, k + 1),
{
    reveal(line_spec);
    reveal(header);
    let h = header(name);
    assert forall|i: int| 0 <= i < h.len() implies h[i] != '#' by {
        if 0 < i < h.len() - 1 {
            assert(h[i] == name[i - 1]);
        }
    }
    lemma_index_of_absent(h, '#');
    lemma_trim_fixed(h);
    assert(h.subrange(1, h.len() - 1) =~= name);
}

proof fn lemma_kv_step(
    st: LoadState,
    lines: Seq<Seq<char>>,
    k: int,
    key: Seq<char>,
    value: Seq<char>,
    st2: LoadState,
)
    requires
        0 <= k < lines.len(),
        lines[k] == kv(key, value),
        key_ok(key),
        value_ok(value),
        entry_spec(st, key, value) == Ok::<LoadState, Seq<char>>(st2),
    ensures
        lines_spec(st, lines, k) == lines_spec(st2, lines, k + 1),
{
    reveal(line_spec);
    reveal(kv);
    reveal_strlit(" = ");
    let line = kv(key, value);
    let mid = seq![' ', '=', ' '];
    assert(" = "@ =~= mid);
    assert(line =~= key + mid + value);
    assert forall|i: int| 0 <= i < line.len() implies line[i] != '#' by {
        if i >= key.len() + 3 {
            assert(line[i] == value[i - key.len() - 3]);
        } else if i < key.len() {
            assert(line[i] == key[i]);
        }
    }
    lemma_index_of_absent(line, '#');
    assert(line[0] == key[0]);
    assert(line.last() == value.last());
    lemma_trim_fixed(line);
    let t = seq!['=', ' '] + value;
    assert((mid + value).drop_first() =~= t);
    assert(t[0] == '=');
    assert(index_of(t, '=') == 0);
    assert((mid + value)[0] == ' ');
    assert(index_of(mid + value, '=') == 1);
    assert(line =~= key + (mid + value));
    lemma_index_of_after(key, mid + value, '=');
    let k1 = key.len() as int + 1;
    let front = line.take(k1);
    assert(front =~= key.push(' '));
    assert(front.drop_last() =~= key);
    assert(crate::text::is_space(' '));
    assert(crate::text::trim_start(front) == front);
    assert(crate::text::trim_end(front) == crate::text::trim_end(key));
    lemma_trim_fixed(key);
    let rest = line.skip(k1 + 1);
    assert(rest =~= seq![' '] + value);
    assert(rest.drop_first() =~= value);
    assert(crate::text::trim_start(rest) == crate::text::trim_start(value));
    lemma_trim_fixed(value);
    assert(trim(rest) == value);
}

proof fn lemma_bool_value(b: bool)
    ensures
        value_ok(bool_text(b)),
        bool_spec(bool_text(b)) == Ok::<bool, Seq<char>>(b),
{
    reveal_strlit("true");
    reveal_strlit("false");
    assert("true"@.len() != "false"@.len());
}

proof fn lemma_precedence_value(p: OperatorOrder)
    ensures
        value_ok(precedence_text(p)),
        precedence_spec(precedence_text(p)) == Ok::<OperatorOrder, Seq<char>>(p),
{
    reveal_strlit("or_and");
    reveal_strlit("and_or");
    assert("or_and"@[0] != "and_or"@[0]);
}

proof fn lemma_decimal_digits(n: nat)
    ensures
        decimal(n).len() > 0,
        crate::text::all_digits(decimal(n)),
        crate::text::digits_value(decimal(n)) == n,
    decreases n,
{
    let d = decimal(n);
    if n < 10 {
        let c = (48 + n) as char;
        assert(c as int == 48 + n);
        assert(d.drop_last() =~= Seq::<char>::empty());
        assert(d.last() == c);
        assert(crate::text::digits_value(d) == crate::text::digits_value(d.drop_last()) * 10 + (c as int - '0' as int));
    } else {
        let c = (48 + n % 10) as char;
        assert(c as int == 48 + n % 10);
        lemma_decimal_digits(n / 10);
        assert(n == (n / 10) * 10 + n % 10) by (nonlinear_arith);
        assert(d.drop_last() =~= decimal(n / 10));
        assert(d.last() == c);
        assert forall|i: int| 0 <= i < d.len() implies '0' <= #[trigger] d[i] <= '9' by {
            if i < d.len() - 1 {
                assert(d[i] == decimal(n / 10)[i]);
            }
        }
    }
}

proof fn lemma_decimal_value(n: u64)
    ensures
        value_ok(decimal(n as nat)),
        crate::text::parse_u64_spec(decimal(n as nat)) == Some(n),
{
    let d = decimal(n as nat);
    lemma_decimal_digits(n as nat);
    assert('0' <= d[0] <= '9');
    assert('0' <= d[d.len() - 1] <= '9');
    assert forall|i: int| 0 <= i < d.len() implies d[i] != '\n' && d[i] != '#' by {
        assert('0' <= d[i] <= '9');
    }
}

proof fn lemma_quoted_value(s: Seq<char>)
    requires
        clean(s),
    ensures
        value_ok(quoted(s)),
        string_spec(quoted(s)) == Ok::<Seq<char>, Seq<char>>(s),
{
    law_quoted_string_reads_back(s);
    lemma_escape_clean(s);
    reveal_strlit("\"");
    let e = escape_quotes(s);
    let q = seq!['"'] + e + seq!['"'];
    assert(quoted(s) =~= q);
    assert forall|i: int| 0 <= i < q.len() implies q[i] != '\n' && q[i] != '#' by {
        if 0 < i < q.len() - 1 {
            assert(q[i] == e[i - 1]);
        }
    }
}

proof fn lemma_quoted_list_clean(v: Seq<Seq<char>>)
    requires
        forall|i: int| 0 <= i < v.len() ==> clean(#[trigger] v[i]),
    ensures
        clean(quoted_list(v)),
    decreases v.len(),
{
    if v.len() == 1 {
        assert(clean(v[0]));
        lemma_quoted_value(v[0]);
    } else if v.len() > 1 {
        let w = v.drop_last();
        assert forall|i: int| 0 <= i < w.len() implies clean(#[trigger] w[i]) by {
            assert(w[i] == v[i]);
        }
        lemma_quoted_list_clean(w);
        assert(clean(v[v.len() - 1]));
        lemma_quoted_value(v.last());
        reveal_strlit(", ");
        let a = quoted_list(w);
        let q = quoted(v.last());
        let t = a + ", "@ + q;
        assert forall|i: int| 0 <= i < t.len() implies t[i] != '\n' && t[i] != '#' by {
            if i < a.len() {
                assert(t[i] == a[i]);
            } else if i >= a.len() + 2 {
                assert(t[i] == q[i - a.len() - 2]);
            }
        }
    }
}

proof fn lemma_array_value(v: Seq<Seq<char>>)
    requires
        items_ok(v),
    ensures
        value_ok(array_text(v)),
        array_spec(array_text(v)) == Ok::<Seq<Seq<char>>, Seq<char>>(v),
{
    law_array_reads_back(v);
    assert forall|i: int| 0 <= i < v.len() implies clean(#[trigger] v[i]) by {
        assert(plain_item(v[i]) && clean(v[i]));
    }
    lemma_quoted_list_clean(v);
    reveal_strlit("[");
    reveal_strlit("]");
    let a = quoted_list(v);
    let t = seq!['['] + a + seq![']'];
    assert(array_text(v) =~= t);
    assert forall|i: int| 0 <= i < t.len() implies t[i] != '\n' && t[i] != '#' by {
        if 0 < i < t.len() - 1 {
            assert(t[i] == a[i - 1]);
        }
    }
}

/// Strings that an array in the file holds and gives back as they are.
pub open spec fn items_ok(v: Seq<Seq<char>>) -> bool {
    forall|i: int| 0 <= i < v.len() ==> plain_item(#[trigger] v[i]) && clean(v[i])
}

/// A shortcut whose entry `command|accelerator` reads back as the same shortcut.
pub open spec fn shortcut_ok(s: ShortcutView) -> bool {
    &&& plain_item(s.command_id) && clean(s.command_id)
    &&& plain_item(s.accelerator) && clean(s.accelerator)
    &&& forall|i: int| 0 <= i < s.command_id.len() ==> s.command_id[i] != '|'
    &&& trim(s.command_id) == s.command_id
    &&& trim(s.accelerator) == s.accelerator
}

/// The shortcuts of one scope, in order.
pub open spec fn in_scope(v: Seq<ShortcutView>, scope: KeyboardScope) -> Seq<ShortcutView>
    decreases v.len(),
{
    if v.len() == 0 {
        Seq::empty()
    } else if v.last().scope == scope {
        in_scope(v.drop_last(), scope).push(v.last())
    } else {
        in_scope(v.drop_last(), scope)
    }
}

/// The shortcuts listed by scope: the global ones, then the search field's, then the result
/// list's.
pub open spec fn grouped(v: Seq<ShortcutView>) -> bool {
    v == in_scope(v, KeyboardScope::Global) + in_scope(v, KeyboardScope::SearchEdit) + in_scope(
        v,
        KeyboardScope::ResultList,
    )
}

pub open spec fn scope_writable(c: ConfigView) -> bool {
    &&& items_ok(c.roots)
    &&& items_ok(c.exclude_fstypes)
    &&& items_ok(c.exclude_patterns)
    &&& items_ok(c.exclude_folders)
    &&& items_ok(c.include_only)
}

pub open spec fn keyboard_writable(k: KeyboardView) -> bool {
    &&& clean(k.new_window_hotkey)
    &&& clean(k.show_window_hotkey)
    &&& clean(k.toggle_window_hotkey)
    &&& forall|i: int| 0 <= i < k.command_shortcuts.len() ==> shortcut_ok(#[trigger] k.command_shortcuts[i])
    &&& grouped(k.command_shortcuts)
}

/// Settings that the settings file holds as they are: what `load` does not read back from
/// `to_toml`'s text are the sort by path (never written), a `#` or a line break in a value
/// (a comment, a new line), a quote or a comma in an item of an array, a `|` in a shortcut's
/// command or white space round its parts, and shortcuts not listed by scope.
pub open spec fn writable(c: ConfigView) -> bool {
    &&& !c.fast_sort_path
    &&& scope_writable(c)
    &&& keyboard_writable(c.keyboard)
}

proof fn lemma_entry_ok(s: ShortcutView)
    requires
        shortcut_ok(s),
    ensures
        plain_item(s.command_id + "|"@ + s.accelerator),
        clean(s.command_id + "|"@ + s.accelerator),
        entry_shortcut(s.command_id + "|"@ + s.accelerator, s.scope) == Ok::<ShortcutView, Seq<char>>(s),
{
    reveal_strlit("|");
    let a = s.command_id;
    let b = s.accelerator;
    let e = a + "|"@ + b;
    assert(e =~= a + (seq!['|'] + b));
    assert forall|i: int| 0 <= i < e.len() implies e[i] != '"' && e[i] != ',' && e[i] != '\n' && e[i]
        != '#' by {
        if i < a.len() {
            assert(e[i] == a[i]);
        } else if i > a.len() {
            assert(e[i] == b[i - a.len() - 1]);
        }
    }
    assert(index_of(seq!['|'] + b, '|') == 0);
    lemma_index_of_after(a, seq!['|'] + b, '|');
    assert(e.take(a.len() as int) =~= a);
    assert(e.skip(a.len() as int + 1) =~= b);
}

proof fn lemma_entries_ok(v: Seq<ShortcutView>, scope: KeyboardScope)
    requires
        forall|i: int| 0 <= i < v.len() ==> shortcut_ok(#[trigger] v[i]),
    ensures
        items_ok(scope_entries(v, scope)),
        scope_shortcuts(scope_entries(v, scope), scope) == Ok::<Seq<ShortcutView>, Seq<char>>(
            in_scope(v, scope),
        ),
    decreases v.len(),
{
    if v.len() > 0 {
        let w = v.drop_last();
        assert forall|i: int| 0 <= i < w.len() implies shortcut_ok(#[trigger] w[i]) by {
            assert(w[i] == v[i]);
        }
        lemma_entries_ok(w, scope);
        assert(shortcut_ok(v[v.len() - 1]));
        lemma_entry_ok(v.last());
        let r = scope_entries(w, scope);
        if v.last().scope == scope {
            let e = v.last().command_id + "|"@ + v.last().accelerator;
            assert(r.push(e).drop_last() =~= r);
            assert forall|i: int| 0 <= i < r.len() + 1 implies plain_item(#[trigger] r.push(e)[i])
                && clean(r.push(e)[i]) by {
                if i < r.len() {
                    assert(r.push(e)[i] == r[i]);
                }
            }
        }
    }
}

proof fn lemma_entries_value(v: Seq<ShortcutView>, scope: KeyboardScope)
    requires
        forall|i: int| 0 <= i < v.len() ==> shortcut_ok(#[trigger] v[i]),
    ensures
        value_ok(array_text(scope_entries(v, scope))),
        array_spec(array_text(scope_entries(v, scope))) == Ok::<Seq<Seq<char>>, Seq<char>>(
            scope_entries(v, scope),
        ),
{
    lemma_entries_ok(v, scope);
    lemma_array_value(scope_entries(v, scope));
}

proof fn lemma_entry_index(st: LoadState, key: Seq<char>, value: Seq<char>)
    requires
        st.section == "index"@,
    ensures
        entry_spec(st, key, value) == match index_key_spec(st.index, key, value) {
            Ok(x) => Ok(LoadState { index: x, ..st }),
            Err(e) => Err::<LoadState, Seq<char>>(e),
        },
{
    reveal(entry_spec);
}

proof fn lemma_entry_roots(st: LoadState, key: Seq<char>, value: Seq<char>)
    requires
        st.section == "roots"@,
    ensures
        entry_spec(st, key, value) == match roots_key_spec(st.scope, key, value) {
            Ok(x) => Ok(LoadState { scope: x, ..st }),
            Err(e) => Err::<LoadState, Seq<char>>(e),
        },
{
    reveal(entry_spec);
    assert("roots"@ != "index"@) by {
        reveal_strlit("roots");
        reveal_strlit("index");
        assert("roots"@[0] != "index"@[0]);
    }
}

proof fn lemma_entry_exclude(st: LoadState, key: Seq<char>, value: Seq<char>)
    requires
        st.section == "exclude"@,
    ensures
        entry_spec(st, key, value) == match exclude_key_spec(st.scope, key, value) {
            Ok(x) => Ok(LoadState { scope: x, ..st }),
            Err(e) => Err::<LoadState, Seq<char>>(e),
        },
{
    reveal(entry_spec);
    assert("exclude"@ != "index"@) by {
        reveal_strlit("exclude");
        reveal_strlit("index");
        assert("exclude"@.len() != "index"@.len());
    }
    assert("exclude"@ != "roots"@) by {
        reveal_strlit("exclude");
        reveal_strlit("roots");
        assert("exclude"@.len() != "roots"@.len());
    }
}

proof fn lemma_entry_polling(st: LoadState, value: Seq<char>)
    requires
        st.section == "polling"@,
    ensures
        entry_spec(st, "interval_secs"@, value) == match crate::text::parse_u64_spec(value) {
            Some(n) => Ok(LoadState { interval: n, ..st }),
            None => Err::<LoadState, Seq<char>>("invalid interval"@),
        },
{
    reveal(entry_spec);
    assert("polling"@ != "index"@) by {
        reveal_strlit("polling");
        reveal_strlit("index");
        assert("polling"@.len() != "index"@.len());
    }
    assert("polling"@ != "roots"@) by {
        reveal_strlit("polling");
        reveal_strlit("roots");
        assert("polling"@.len() != "roots"@.len());
    }
    assert("polling"@ != "exclude"@) by {
        reveal_strlit("polling");
        reveal_strlit("exclude");
        assert("polling"@[0] != "exclude"@[0]);
    }
}

proof fn lemma_entry_keyboard(st: LoadState, key: Seq<char>, value: Seq<char>)
    requires
        st.section == "keyboard"@,
    ensures
        entry_spec(st, key, value) == match keyboard_key_spec(st.keys, key, value) {
            Ok(x) => Ok(LoadState { keys: x, ..st }),
            Err(e) => Err::<LoadState, Seq<char>>(e),
        },
{
    reveal(entry_spec);
    assert("keyboard"@ != "index"@) by {
        reveal_strlit("keyboard");
        reveal_strlit("index");
        assert("keyboard"@.len() != "index"@.len());
    }
    assert("keyboard"@ != "roots"@) by {
        reveal_strlit("keyboard");
        reveal_strlit("roots");
        assert("keyboard"@.len() != "roots"@.len());
    }
    assert("keyboard"@ != "exclude"@) by {
        reveal_strlit("keyboard");
        reveal_strlit("exclude");
        assert("keyboard"@.len() != "exclude"@.len());
    }
    assert("keyboard"@ != "polling"@) by {
        reveal_strlit("keyboard");
        reveal_strlit("polling");
        assert("keyboard"@.len() != "polling"@.len());
    }
}

proof fn lemma_entry_keyboard_shortcuts(st: LoadState, key: Seq<char>, value: Seq<char>)
    requires
        st.section == "keyboard.shortcuts"@,
    ensures
        entry_spec(st, key, value) == match shortcut_key_spec(st.keys, key, value) {
            Ok(x) => Ok(LoadState { keys: x, ..st }),
            Err(e) => Err::<LoadState, Seq<char>>(e),
        },
{
    reveal(entry_spec);
    assert("keyboard.shortcuts"@ != "index"@) by {
        reveal_strlit("keyboard.shortcuts");
        reveal_strlit("index");
        assert("keyboard.shortcuts"@.len() != "index"@.len());
    }
    assert("keyboard.shortcuts"@ != "roots"@) by {
        reveal_strlit("keyboard.shortcuts");
        reveal_strlit("roots");
        assert("keyboard.shortcuts"@.len() != "roots"@.len());
    }
    assert("keyboard.shortcuts"@ != "exclude"@) by {
        reveal_strlit("keyboard.shortcuts");
        reveal_strlit("exclude");
        assert("keyboard.shortcuts"@.len() != "exclude"@.len());
    }
    assert("keyboard.shortcuts"@ != "polling"@) by {
        reveal_strlit("keyboard.shortcuts");
        reveal_strlit("polling");
        assert("keyboard.shortcuts"@.len() != "polling"@.len());
    }
    assert("keyboard.shortcuts"@ != "keyboard"@) by {
        reveal_strlit("keyboard.shortcuts");
        reveal_strlit("keyboard");
        assert("keyboard.shortcuts"@.len() != "keyboard"@.len());
    }
}

proof fn lemma_key_size(ix: IndexSettings, b: bool)
    ensures
        index_key_spec(ix, "size"@, bool_text(b)) == Ok::<IndexSettings, Seq<char>>(IndexSettings { size: b, ..ix }),
{
    reveal(index_key_spec);
    lemma_bool_value(b);
    assert("size"@ != "operator_precedence"@) by {
        reveal_strlit("size");
        reveal_strlit("operator_precedence");
        assert("size"@.len() != "operator_precedence"@.len());
    }
}

proof fn lemma_key_date_modified(ix: IndexSettings, b: bool)
    ensures
        index_key_spec(ix, "date_modified"@, bool_text(b)) == Ok::<IndexSettings, Seq<char>>(IndexSettings { date_modified: b, ..ix }),
{
    reveal(index_key_spec);
    lemma_bool_value(b);
    assert("date_modified"@ != "operator_precedence"@) by {
        reveal_strlit("date_modified");
        reveal_strlit("operator_precedence");
        assert("date_modified"@.len() != "operator_precedence"@.len());
    }
    assert("date_modified"@ != "size"@) by {
        reveal_strlit("date_modified");
        reveal_strlit("size");
        assert("date_modified"@.len() != "size"@.len());
    }
}

proof fn lemma_key_date_created(ix: IndexSettings, b: bool)
    ensures
        index_key_spec(ix, "date_created"@, bool_text(b)) == Ok::<IndexSettings, Seq<char>>(IndexSettings { date_created: b, ..ix }),
{
    reveal(index_key_spec);
    lemma_bool_value(b);
    assert("date_created"@ != "operator_precedence"@) by {
        reveal_strlit("date_created");
        reveal_strlit("operator_precedence");
        assert("date_created"@.len() != "operator_precedence"@.len());
    }
    assert("date_created"@ != "size"@) by {
        reveal_strlit("date_created");
        reveal_strlit("size");
        assert("date_created"@.len() != "size"@.len());
    }
    assert("date_created"@ != "date_modified"@) by {
        reveal_strlit("date_created");
        reveal_strlit("date_modified");
        assert("date_created"@.len() != "date_modified"@.len());
    }
}

proof fn lemma_key_date_accessed(ix: IndexSettings, b: bool)
    ensures
        index_key_spec(ix, "date_accessed"@, bool_text(b)) == Ok::<IndexSettings, Seq<char>>(IndexSettings { date_accessed: b, ..ix }),
{
    reveal(index_key_spec);
    lemma_bool_value(b);
    assert("date_accessed"@ != "operator_precedence"@) by {
        reveal_strlit("date_accessed");
        reveal_strlit("operator_precedence");
        assert("date_accessed"@.len() != "operator_precedence"@.len());
    }
    assert("date_accessed"@ != "size"@) by {
        reveal_strlit("date_accessed");
        reveal_strlit("size");
        assert("date_accessed"@.len() != "size"@.len());
    }
    assert("date_accessed"@ != "date_modified"@) by {
        reveal_strlit("date_accessed");
        reveal_strlit("date_modified");
        assert("date_accessed"@[5] != "date_modified"@[5]);
    }
    assert("date_accessed"@ != "date_created"@) by {
        reveal_strlit("date_accessed");
        reveal_strlit("date_created");
        assert("date_accessed"@.len() != "date_created"@.len());
    }
}

proof fn lemma_key_permissions(ix: IndexSettings, b: bool)
    ensures
        index_key_spec(ix, "permissions"@, bool_text(b)) == Ok::<IndexSettings, Seq<char>>(IndexSettings { permissions: b, ..ix }),
{
    reveal(index_key_spec);
    lemma_bool_value(b);
    assert("permissions"@ != "operator_precedence"@) by {
        reveal_strlit("permissions");
        reveal_strlit("operator_precedence");
        assert("permissions"@.len() != "operator_precedence"@.len());
    }
    assert("permissions"@ != "size"@) by {
        reveal_strlit("permissions");
        reveal_strlit("size");
        assert("permissions"@.len() != "size"@.len());
    }
    assert("permissions"@ != "date_modified"@) by {
        reveal_strlit("permissions");
        reveal_strlit("date_modified");
        assert("permissions"@.len() != "date_modified"@.len());
    }
    assert("permissions"@ != "date_created"@) by {
        reveal_strlit("permissions");
        reveal_strlit("date_created");
        assert("permissions"@.len() != "date_created"@.len());
    }
    assert("permissions"@ != "date_accessed"@) by {
        reveal_strlit("permissions");
        reveal_strlit("date_accessed");
        assert("permissions"@.len() != "date_accessed"@.len());
    }
}

proof fn lemma_key_fast_extension(ix: IndexSettings, b: bool)
    ensures
        index_key_spec(ix, "fast_extension"@, bool_text(b)) == Ok::<IndexSettings, Seq<char>>(IndexSettings { fast_extension: b, ..ix }),
{
    reveal(index_key_spec);
    lemma_bool_value(b);
    assert("fast_extension"@ != "operator_precedence"@) by {
        reveal_strlit("fast_extension");
        reveal_strlit("operator_precedence");
        assert("fast_extension"@.len() != "operator_precedence"@.len());
    }
    assert("fast_extension"@ != "size"@) by {
        reveal_strlit("fast_extension");
        reveal_strlit("size");
        assert("fast_extension"@.len() != "size"@.len());
    }
    assert("fast_extension"@ != "date_modified"@) by {
        reveal_strlit("fast_extension");
        reveal_strlit("date_modified");
        assert("fast_extension"@.len() != "date_modified"@.len());
    }
    assert("fast_extension"@ != "date_created"@) by {
        reveal_strlit("fast_extension");
        reveal_strlit("date_created");
        assert("fast_extension"@.len() != "date_created"@.len());
    }
    assert("fast_extension"@ != "date_accessed"@) by {
        reveal_strlit("fast_extension");
        reveal_strlit("date_accessed");
        assert("fast_extension"@.len() != "date_accessed"@.len());
    }
    assert("fast_extension"@ != "permissions"@) by {
        reveal_strlit("fast_extension");
        reveal_strlit("permissions");
        assert("fast_extension"@.len() != "permissions"@.len());
    }
}

proof fn lemma_key_whole_filename_wildcards(ix: IndexSettings, b: bool)
    ensures
        index_key_spec(ix, "whole_filename_wildcards"@, bool_text(b)) == Ok::<IndexSettings, Seq<char>>(IndexSettings { whole_filename_wildcards: b, ..ix }),
{
    reveal(index_key_spec);
    lemma_bool_value(b);
    assert("whole_filename_wildcards"@ != "operator_precedence"@) by {
        reveal_strlit("whole_filename_wildcards");
        reveal_strlit("operator_precedence");
        assert("whole_filename_wildcards"@.len() != "operator_precedence"@.len());
    }
    assert("whole_filename_wildcards"@ != "size"@) by {
        reveal_strlit("whole_filename_wildcards");
        reveal_strlit("size");
        assert("whole_filename_wildcards"@.len() != "size"@.len());
    }
    assert("whole_filename_wildcards"@ != "date_modified"@) by {
        reveal_strlit("whole_filename_wildcards");
        reveal_strlit("date_modified");
        assert("whole_filename_wildcards"@.len() != "date_modified"@.len());
    }
    assert("whole_filename_wildcards"@ != "date_created"@) by {
        reveal_strlit("whole_filename_wildcards");
        reveal_strlit("date_created");
        assert("whole_filename_wildcards"@.len() != "date_created"@.len());
    }
    assert("whole_filename_wildcards"@ != "date_accessed"@) by {
        reveal_strlit("whole_filename_wildcards");
        reveal_strlit("date_accessed");
        assert("whole_filename_wildcards"@.len() != "date_accessed"@.len());
    }
    assert("whole_filename_wildcards"@ != "permissions"@) by {
        reveal_strlit("whole_filename_wildcards");
        reveal_strlit("permissions");
        assert("whole_filename_wildcards"@.len() != "permissions"@.len());
    }
    assert("whole_filename_wildcards"@ != "fast_extension"@) by {
        reveal_strlit("whole_filename_wildcards");
        reveal_strlit("fast_extension");
        assert("whole_filename_wildcards"@.len() != "fast_extension"@.len());
    }
}

proof fn lemma_key_operator_precedence(ix: IndexSettings, p: OperatorOrder)
    ensures
        index_key_spec(ix, "operator_precedence"@, precedence_text(p)) == Ok::<IndexSettings, Seq<char>>(IndexSettings { precedence: p, ..ix }),
{
    reveal(index_key_spec);
    lemma_precedence_value(p);
}

proof fn lemma_key_auto_detect(sc: ScopeView, b: bool)
    ensures
        roots_key_spec(sc, "auto_detect"@, bool_text(b)) == Ok::<ScopeView, Seq<char>>(
            if b { sc } else { ScopeView { roots: Seq::empty(), ..sc } },
        ),
{
    reveal(roots_key_spec);
    lemma_bool_value(b);
}

proof fn lemma_key_include(sc: ScopeView, v: Seq<Seq<char>>)
    requires
        items_ok(v),
    ensures
        roots_key_spec(sc, "include"@, array_text(v)) == Ok::<ScopeView, Seq<char>>(ScopeView { roots: v, ..sc }),
{
    reveal(roots_key_spec);
    lemma_array_value(v);
    assert("include"@ != "auto_detect"@) by {
        reveal_strlit("include");
        reveal_strlit("auto_detect");
        assert("include"@.len() != "auto_detect"@.len());
    }
}

proof fn lemma_key_exclude_fstypes(sc: ScopeView, v: Seq<Seq<char>>)
    requires
        items_ok(v),
    ensures
        roots_key_spec(sc, "exclude_fstypes"@, array_text(v)) == Ok::<ScopeView, Seq<char>>(ScopeView { fstypes: v, ..sc }),
{
    reveal(roots_key_spec);
    lemma_array_value(v);
    assert("exclude_fstypes"@ != "auto_detect"@) by {
        reveal_strlit("exclude_fstypes");
        reveal_strlit("auto_detect");
        assert("exclude_fstypes"@.len() != "auto_detect"@.len());
    }
    assert("exclude_fstypes"@ != "include"@) by {
        reveal_strlit("exclude_fstypes");
        reveal_strlit("include");
        assert("exclude_fstypes"@.len() != "include"@.len());
    }
}

proof fn lemma_key_hidden_files(sc: ScopeView, b: bool)
    ensures
        exclude_key_spec(sc, "hidden_files"@, bool_text(b)) == Ok::<ScopeView, Seq<char>>(ScopeView { hidden: b, ..sc }),
{
    reveal(exclude_key_spec);
    lemma_bool_value(b);
}

proof fn lemma_key_patterns(sc: ScopeView, v: Seq<Seq<char>>)
    requires
        items_ok(v),
    ensures
        exclude_key_spec(sc, "patterns"@, array_text(v)) == Ok::<ScopeView, Seq<char>>(ScopeView { patterns: v, ..sc }),
{
    reveal(exclude_key_spec);
    lemma_array_value(v);
    assert("patterns"@ != "hidden_files"@) by {
        reveal_strlit("patterns");
        reveal_strlit("hidden_files");
        assert("patterns"@.len() != "hidden_files"@.len());
    }
}

proof fn lemma_key_folders(sc: ScopeView, v: Seq<Seq<char>>)
    requires
        items_ok(v),
    ensures
        exclude_key_spec(sc, "folders"@, array_text(v)) == Ok::<ScopeView, Seq<char>>(ScopeView { folders: v, ..sc }),
{
    reveal(exclude_key_spec);
    lemma_array_value(v);
    assert("folders"@ != "hidden_files"@) by {
        reveal_strlit("folders");
        reveal_strlit("hidden_files");
        assert("folders"@.len() != "hidden_files"@.len());
    }
    assert("folders"@ != "patterns"@) by {
        reveal_strlit("folders");
        reveal_strlit("patterns");
        assert("folders"@.len() != "patterns"@.len());
    }
}

proof fn lemma_key_include_only(sc: ScopeView, v: Seq<Seq<char>>)
    requires
        items_ok(v),
    ensures
        exclude_key_spec(sc, "include_only"@, array_text(v)) == Ok::<ScopeView, Seq<char>>(ScopeView { include_only: v, ..sc }),
{
    reveal(exclude_key_spec);
    lemma_array_value(v);
    assert("include_only"@ != "hidden_files"@) by {
        reveal_strlit("include_only");
        reveal_strlit("hidden_files");
        assert("include_only"@[0] != "hidden_files"@[0]);
    }
    assert("include_only"@ != "patterns"@) by {
        reveal_strlit("include_only");
        reveal_strlit("patterns");
        assert("include_only"@.len() != "patterns"@.len());
    }
    assert("include_only"@ != "folders"@) by {
        reveal_strlit("include_only");
        reveal_strlit("folders");
        assert("include_only"@.len() != "folders"@.len());
    }
}

proof fn lemma_key_new_window_hotkey(k: KeysView, h: Seq<char>)
    requires
        clean(h),
    ensures
        keyboard_key_spec(k, "new_window_hotkey"@, quoted(h)) == Ok::<KeysView, Seq<char>>(KeysView { new_window: h, ..k }),
{
    reveal(keyboard_key_spec);
    lemma_quoted_value(h);
}

proof fn lemma_key_show_window_hotkey(k: KeysView, h: Seq<char>)
    requires
        clean(h),
    ensures
        keyboard_key_spec(k, "show_window_hotkey"@, quoted(h)) == Ok::<KeysView, Seq<char>>(KeysView { show_window: h, ..k }),
{
    reveal(keyboard_key_spec);
    lemma_quoted_value(h);
    assert("show_window_hotkey"@ != "new_window_hotkey"@) by {
        reveal_strlit("show_window_hotkey");
        reveal_strlit("new_window_hotkey");
        assert("show_window_hotkey"@.len() != "new_window_hotkey"@.len());
    }
}

proof fn lemma_key_toggle_window_hotkey(k: KeysView, h: Seq<char>)
    requires
        clean(h),
    ensures
        keyboard_key_spec(k, "toggle_window_hotkey"@, quoted(h)) == Ok::<KeysView, Seq<char>>(KeysView { toggle_window: h, ..k }),
{
    reveal(keyboard_key_spec);
    lemma_quoted_value(h);
    assert("toggle_window_hotkey"@ != "new_window_hotkey"@) by {
        reveal_strlit("toggle_window_hotkey");
        reveal_strlit("new_window_hotkey");
        assert("toggle_window_hotkey"@.len() != "new_window_hotkey"@.len());
    }
    assert("toggle_window_hotkey"@ != "show_window_hotkey"@) by {
        reveal_strlit("toggle_window_hotkey");
        reveal_strlit("show_window_hotkey");
        assert("toggle_window_hotkey"@.len() != "show_window_hotkey"@.len());
    }
}

proof fn lemma_key_global(k: KeysView, v: Seq<ShortcutView>)
    requires
        forall|i: int| 0 <= i < v.len() ==> shortcut_ok(#[trigger] v[i]),
    ensures
        shortcut_key_spec(k, "global"@, array_text(scope_entries(v, KeyboardScope::Global))) == Ok::<KeysView, Seq<char>>(
            KeysView { global: scope_entries(v, KeyboardScope::Global), ..k },
        ),
{
    reveal(shortcut_key_spec);
    lemma_entries_value(v, KeyboardScope::Global);
}

proof fn lemma_key_search_edit(k: KeysView, v: Seq<ShortcutView>)
    requires
        forall|i: int| 0 <= i < v.len() ==> shortcut_ok(#[trigger] v[i]),
    ensures
        shortcut_key_spec(k, "search_edit"@, array_text(scope_entries(v, KeyboardScope::SearchEdit))) == Ok::<KeysView, Seq<char>>(
            KeysView { search_edit: scope_entries(v, KeyboardScope::SearchEdit), ..k },
        ),
{
    reveal(shortcut_key_spec);
    lemma_entries_value(v, KeyboardScope::SearchEdit);
    assert("search_edit"@ != "global"@) by {
        reveal_strlit("search_edit");
        reveal_strlit("global");
        assert("search_edit"@.len() != "global"@.len());
    }
}

proof fn lemma_key_result_list(k: KeysView, v: Seq<ShortcutView>)
    requires
        forall|i: int| 0 <= i < v.len() ==> shortcut_ok(#[trigger] v[i]),
    ensures
        shortcut_key_spec(k, "result_list"@, array_text(scope_entries(v, KeyboardScope::ResultList))) == Ok::<KeysView, Seq<char>>(
            KeysView { result_list: scope_entries(v, KeyboardScope::ResultList), ..k },
        ),
{
    reveal(shortcut_key_spec);
    lemma_entries_value(v, KeyboardScope::ResultList);
    assert("result_list"@ != "global"@) by {
        reveal_strlit("result_list");
        reveal_strlit("global");
        assert("result_list"@.len() != "global"@.len());
    }
    assert("result_list"@ != "search_edit"@) by {
        reveal_strlit("result_list");
        reveal_strlit("search_edit");
        assert("result_list"@[0] != "search_edit"@[0]);
    }
}

proof fn lemma_run_scope(st: LoadState, lines: Seq<Seq<char>>, at: int, c: ConfigView)
    requires
        0 <= at,
        at + 14 <= lines.len(),
        lines.subrange(at, at + 14) == scope_lines(c),
        scope_writable(c),
    ensures
        lines_spec(st, lines, at + 0) == lines_spec(
            LoadState {
                scope: ScopeView {
                    roots: c.roots,
                    fstypes: c.exclude_fstypes,
                    hidden: c.exclude_hidden,
                    patterns: c.exclude_patterns,
                    folders: c.exclude_folders,
                    include_only: c.include_only,
                },
                interval: c.poll_interval_secs,
                section: "polling"@,
                ..st
            },
            lines,
            at + 14,
        ),
{
    let l = scope_lines(c);
    assert forall|i: int| 0 <= i < 14 implies lines[at + i] == #[trigger] l[i] by {
        assert(lines.subrange(at, at + 14)[i] == lines[at + i]);
    }
    assert(lines[at] == l[0]);
    assert(clean("roots"@)) by {
        reveal_strlit("roots");
    }
    lemma_header_step(st, lines, at, "roots"@);
    let s0 = LoadState { section: "roots"@, ..st };
    assert(lines[at + 1] == l[1]);
    let s1 = LoadState { scope: if c.roots.len() == 0 { s0.scope } else { ScopeView { roots: Seq::empty(), ..s0.scope } }, ..s0 };
    assert(key_ok("auto_detect"@)) by {
        reveal_strlit("auto_detect");
    }
    lemma_bool_value(c.roots.len() == 0);
    lemma_entry_roots(s0, "auto_detect"@, bool_text(c.roots.len() == 0));
    lemma_key_auto_detect(s0.scope, c.roots.len() == 0);
    lemma_kv_step(s0, lines, at + 1, "auto_detect"@, bool_text(c.roots.len() == 0), s1);
    assert(lines[at + 2] == l[2]);
    let s2 = LoadState { scope: ScopeView { roots: c.roots, ..s1.scope }, ..s1 };
    assert(key_ok("include"@)) by {
        reveal_strlit("include");
    }
    lemma_array_value(c.roots);
    lemma_entry_roots(s1, "include"@, array_text(c.roots));
    lemma_key_include(s1.scope, c.roots);
    lemma_kv_step(s1, lines, at + 2, "include"@, array_text(c.roots), s2);
    assert(lines[at + 3] == l[3]);
    let s3 = LoadState { scope: ScopeView { fstypes: c.exclude_fstypes, ..s2.scope }, ..s2 };
    assert(key_ok("exclude_fstypes"@)) by {
        reveal_strlit("exclude_fstypes");
    }
    lemma_array_value(c.exclude_fstypes);
    lemma_entry_roots(s2, "exclude_fstypes"@, array_text(c.exclude_fstypes));
    lemma_key_exclude_fstypes(s2.scope, c.exclude_fstypes);
    lemma_kv_step(s2, lines, at + 3, "exclude_fstypes"@, array_text(c.exclude_fstypes), s3);
    assert(lines[at + 4] == l[4]);
    lemma_blank_step(s3, lines, at + 4);
    assert(lines[at + 5] == l[5]);
    assert(clean("exclude"@)) by {
        reveal_strlit("exclude");
    }
    lemma_header_step(s3, lines, at + 5, "exclude"@);
    let s4 = LoadState { section: "exclude"@, ..s3 };
    assert(lines[at + 6] == l[6]);
    let s5 = LoadState { scope: ScopeView { hidden: c.exclude_hidden, ..s4.scope }, ..s4 };
    assert(key_ok("hidden_files"@)) by {
        reveal_strlit("hidden_files");
    }
    lemma_bool_value(c.exclude_hidden);
    lemma_entry_exclude(s4, "hidden_files"@, bool_text(c.exclude_hidden));
    lemma_key_hidden_files(s4.scope, c.exclude_hidden);
    lemma_kv_step(s4, lines, at + 6, "hidden_files"@, bool_text(c.exclude_hidden), s5);
    assert(lines[at + 7] == l[7]);
    let s6 = LoadState { scope: ScopeView { patterns: c.exclude_patterns, ..s5.scope }, ..s5 };
    assert(key_ok("patterns"@)) by {
        reveal_strlit("patterns");
    }
    lemma_array_value(c.exclude_patterns);
    lemma_entry_exclude(s5, "patterns"@, array_text(c.exclude_patterns));
    lemma_key_patterns(s5.scope, c.exclude_patterns);
    lemma_kv_step(s5, lines, at + 7, "patterns"@, array_text(c.exclude_patterns), s6);
    assert(lines[at + 8] == l[8]);
    let s7 = LoadState { scope: ScopeView { folders: c.exclude_folders, ..s6.scope }, ..s6 };
    assert(key_ok("folders"@)) by {
        reveal_strlit("folders");
    }
    lemma_array_value(c.exclude_folders);
    lemma_entry_exclude(s6, "folders"@, array_text(c.exclude_folders));
    lemma_key_folders(s6.scope, c.exclude_folders);
    lemma_kv_step(s6, lines, at + 8, "folders"@, array_text(c.exclude_folders), s7);
    assert(lines[at + 9] == l[9]);
    let s8 = LoadState { scope: ScopeView { include_only: c.include_only, ..s7.scope }, ..s7 };
    assert(key_ok("include_only"@)) by {
        reveal_strlit("include_only");
    }
    lemma_array_value(c.include_only);
    lemma_entry_exclude(s7, "include_only"@, array_text(c.include_only));
    lemma_key_include_only(s7.scope, c.include_only);
    lemma_kv_step(s7, lines, at + 9, "include_only"@, array_text(c.include_only), s8);
    assert(lines[at + 10] == l[10]);
    lemma_blank_step(s8, lines, at + 10);
    assert(lines[at + 11] == l[11]);
    assert(clean("polling"@)) by {
        reveal_strlit("polling");
    }
    lemma_header_step(s8, lines, at + 11, "polling"@);
    let s9 = LoadState { section: "polling"@, ..s8 };
    assert(lines[at + 12] == l[12]);
    let s10 = LoadState { interval: c.poll_interval_secs, ..s9 };
    assert(key_ok("interval_secs"@)) by {
        reveal_strlit("interval_secs");
    }
    lemma_decimal_value(c.poll_interval_secs);
    lemma_entry_polling(s9, decimal(c.poll_interval_secs as nat));
    lemma_kv_step(s9, lines, at + 12, "interval_secs"@, decimal(c.poll_interval_secs as nat), s10);
    assert(lines[at + 13] == l[13]);
    lemma_blank_step(s10, lines, at + 13);
    assert(s10 == LoadState {
                scope: ScopeView {
                    roots: c.roots,
                    fstypes: c.exclude_fstypes,
                    hidden: c.exclude_hidden,
                    patterns: c.exclude_patterns,
                    folders: c.exclude_folders,
                    include_only: c.include_only,
                },
                interval: c.poll_interval_secs,
                section: "polling"@,
                ..st
            });
}

proof fn lemma_run_keyboard(st: LoadState, lines: Seq<Seq<char>>, at: int, k: KeyboardView)
    requires
        0 <= at,
        at + 9 <= lines.len(),
        lines.subrange(at, at + 9) == keyboard_lines(k),
        keyboard_writable(k),
    ensures
        lines_spec(st, lines, at + 0) == lines_spec(
            LoadState {
                keys: KeysView {
                    new_window: k.new_window_hotkey,
                    show_window: k.show_window_hotkey,
                    toggle_window: k.toggle_window_hotkey,
                    global: scope_entries(k.command_shortcuts, KeyboardScope::Global),
                    search_edit: scope_entries(k.command_shortcuts, KeyboardScope::SearchEdit),
                    result_list: scope_entries(k.command_shortcuts, KeyboardScope::ResultList),
                },
                section: "keyboard.shortcuts"@,
                ..st
            },
            lines,
            at + 9,
        ),
{
    let l = keyboard_lines(k);
    assert forall|i: int| 0 <= i < 9 implies lines[at + i] == #[trigger] l[i] by {
        assert(lines.subrange(at, at + 9)[i] == lines[at + i]);
    }
    assert(lines[at] == l[0]);
    assert(clean("keyboard"@)) by {
        reveal_strlit("keyboard");
    }
    lemma_header_step(st, lines, at, "keyboard"@);
    let s0 = LoadState { section: "keyboard"@, ..st };
    assert(lines[at + 1] == l[1]);
    let s1 = LoadState { keys: KeysView { new_window: k.new_window_hotkey, ..s0.keys }, ..s0 };
    assert(key_ok("new_window_hotkey"@)) by {
        reveal_strlit("new_window_hotkey");
    }
    lemma_quoted_value(k.new_window_hotkey);
    lemma_entry_keyboard(s0, "new_window_hotkey"@, quoted(k.new_window_hotkey));
    lemma_key_new_window_hotkey(s0.keys, k.new_window_hotkey);
    lemma_kv_step(s0, lines, at + 1, "new_window_hotkey"@, quoted(k.new_window_hotkey), s1);
    assert(lines[at + 2] == l[2]);
    let s2 = LoadState { keys: KeysView { show_window: k.show_window_hotkey, ..s1.keys }, ..s1 };
    assert(key_ok("show_window_hotkey"@)) by {
        reveal_strlit("show_window_hotkey");
    }
    lemma_quoted_value(k.show_window_hotkey);
    lemma_entry_keyboard(s1, "show_window_hotkey"@, quoted(k.show_window_hotkey));
    lemma_key_show_window_hotkey(s1.keys, k.show_window_hotkey);
    lemma_kv_step(s1, lines, at + 2, "show_window_hotkey"@, quoted(k.show_window_hotkey), s2);
    assert(lines[at + 3] == l[3]);
    let s3 = LoadState { keys: KeysView { toggle_window: k.toggle_window_hotkey, ..s2.keys }, ..s2 };
    assert(key_ok("toggle_window_hotkey"@)) by {
        reveal_strlit("toggle_window_hotkey");
    }
    lemma_quoted_value(k.toggle_window_hotkey);
    lemma_entry_keyboard(s2, "toggle_window_hotkey"@, quoted(k.toggle_window_hotkey));
    lemma_key_toggle_window_hotkey(s2.keys, k.toggle_window_hotkey);
    lemma_kv_step(s2, lines, at + 3, "toggle_window_hotkey"@, quoted(k.toggle_window_hotkey), s3);
    assert(lines[at + 4] == l[4]);
    lemma_blank_step(s3, lines, at + 4);
    assert(lines[at + 5] == l[5]);
    assert(clean("keyboard.shortcuts"@)) by {
        reveal_strlit("keyboard.shortcuts");
    }
    lemma_header_step(s3, lines, at + 5, "keyboard.shortcuts"@);
    let s4 = LoadState { section: "keyboard.shortcuts"@, ..s3 };
    assert(lines[at + 6] == l[6]);
    let s5 = LoadState { keys: KeysView { global: scope_entries(k.command_shortcuts, KeyboardScope::Global), ..s4.keys }, ..s4 };
    assert(key_ok("global"@)) by {
        reveal_strlit("global");
    }
    lemma_entries_value(k.command_shortcuts, KeyboardScope::Global);
    lemma_entry_keyboard_shortcuts(s4, "global"@, array_text(scope_entries(k.command_shortcuts, KeyboardScope::Global)));
    lemma_key_global(s4.keys, k.command_shortcuts);
    lemma_kv_step(s4, lines, at + 6, "global"@, array_text(scope_entries(k.command_shortcuts, KeyboardScope::Global)), s5);
    assert(lines[at + 7] == l[7]);
    let s6 = LoadState { keys: KeysView { search_edit: scope_entries(k.command_shortcuts, KeyboardScope::SearchEdit), ..s5.keys }, ..s5 };
    assert(key_ok("search_edit"@)) by {
        reveal_strlit("search_edit");
    }
    lemma_entries_value(k.command_shortcuts, KeyboardScope::SearchEdit);
    lemma_entry_keyboard_shortcuts(s5, "search_edit"@, array_text(scope_entries(k.command_shortcuts, KeyboardScope::SearchEdit)));
    lemma_key_search_edit(s5.keys, k.command_shortcuts);
    lemma_kv_step(s5, lines, at + 7, "search_edit"@, array_text(scope_entries(k.command_shortcuts, KeyboardScope::SearchEdit)), s6);
    assert(lines[at + 8] == l[8]);
    let s7 = LoadState { keys: KeysView { result_list: scope_entries(k.command_shortcuts, KeyboardScope::ResultList), ..s6.keys }, ..s6 };
    assert(key_ok("result_list"@)) by {
        reveal_strlit("result_list");
    }
    lemma_entries_value(k.command_shortcuts, KeyboardScope::ResultList);
    lemma_entry_keyboard_shortcuts(s6, "result_list"@, array_text(scope_entries(k.command_shortcuts, KeyboardScope::ResultList)));
    lemma_key_result_list(s6.keys, k.command_shortcuts);
    lemma_kv_step(s6, lines, at + 8, "result_list"@, array_text(scope_entries(k.command_shortcuts, KeyboardScope::ResultList)), s7);
    assert(s7 == LoadState {
                keys: KeysView {
                    new_window: k.new_window_hotkey,
                    show_window: k.show_window_hotkey,
                    toggle_window: k.toggle_window_hotkey,
                    global: scope_entries(k.command_shortcuts, KeyboardScope::Global),
                    search_edit: scope_entries(k.command_shortcuts, KeyboardScope::SearchEdit),
                    result_list: scope_entries(k.command_shortcuts, KeyboardScope::ResultList),
                },
                section: "keyboard.shortcuts"@,
                ..st
            });
}

proof fn lemma_step_size(st: LoadState, lines: Seq<Seq<char>>, at: int, b: bool)
    requires
        0 <= at < lines.len(),
        lines[at] == kv("size"@, bool_text(b)),
        st.section == "index"@,
    ensures
        lines_spec(st, lines, at) == lines_spec(
            LoadState { index: IndexSettings { size: b, ..st.index }, ..st },
            lines,
            at + 1,
        ),
{
    assert(key_ok("size"@)) by {
        reveal_strlit("size");
    }
    lemma_bool_value(b);
    lemma_entry_index(st, "size"@, bool_text(b));
    lemma_key_size(st.index, b);
    lemma_kv_step(st, lines, at, "size"@, bool_text(b), LoadState { index: IndexSettings { size: b, ..st.index }, ..st });
}

proof fn lemma_step_date_modified(st: LoadState, lines: Seq<Seq<char>>, at: int, b: bool)
    requires
        0 <= at < lines.len(),
        lines[at] == kv("date_modified"@, bool_text(b)),
        st.section == "index"@,
    ensures
        lines_spec(st, lines, at) == lines_spec(
            LoadState { index: IndexSettings { date_modified: b, ..st.index }, ..st },
            lines,
            at + 1,
        ),
{
    assert(key_ok("date_modified"@)) by {
        reveal_strlit("date_modified");
    }
    lemma_bool_value(b);
    lemma_entry_index(st, "date_modified"@, bool_text(b));
    lemma_key_date_modified(st.index, b);
    lemma_kv_step(st, lines, at, "date_modified"@, bool_text(b), LoadState { index: IndexSettings { date_modified: b, ..st.index }, ..st });
}

proof fn lemma_step_date_created(st: LoadState, lines: Seq<Seq<char>>, at: int, b: bool)
    requires
        0 <= at < lines.len(),
        lines[at] == kv("date_created"@, bool_text(b)),
        st.section == "index"@,
    ensures
        lines_spec(st, lines, at) == lines_spec(
            LoadState { index: IndexSettings { date_created: b, ..st.index }, ..st },
            lines,
            at + 1,
        ),
{
    assert(key_ok("date_created"@)) by {
        reveal_strlit("date_created");
    }
    lemma_bool_value(b);
    lemma_entry_index(st, "date_created"@, bool_text(b));
    lemma_key_date_created(st.index, b);
    lemma_kv_step(st, lines, at, "date_created"@, bool_text(b), LoadState { index: IndexSettings { date_created: b, ..st.index }, ..st });
}

proof fn lemma_step_date_accessed(st: LoadState, lines: Seq<Seq<char>>, at: int, b: bool)
    requires
        0 <= at < lines.len(),
        lines[at] == kv("date_accessed"@, bool_text(b)),
        st.section == "index"@,
    ensures
        lines_spec(st, lines, at) == lines_spec(
            LoadState { index: IndexSettings { date_accessed: b, ..st.index }, ..st },
            lines,
            at + 1,
        ),
{
    assert(key_ok("date_accessed"@)) by {
        reveal_strlit("date_accessed");
    }
    lemma_bool_value(b);
    lemma_entry_index(st, "date_accessed"@, bool_text(b));
    lemma_key_date_accessed(st.index, b);
    lemma_kv_step(st, lines, at, "date_accessed"@, bool_text(b), LoadState { index: IndexSettings { date_accessed: b, ..st.index }, ..st });
}

proof fn lemma_step_permissions(st: LoadState, lines: Seq<Seq<char>>, at: int, b: bool)
    requires
        0 <= at < lines.len(),
        lines[at] == kv("permissions"@, bool_text(b)),
        st.section == "index"@,
    ensures
        lines_spec(st, lines, at) == lines_spec(
            LoadState { index: IndexSettings { permissions: b, ..st.index }, ..st },
            lines,
            at + 1,
        ),
{
    assert(key_ok("permissions"@)) by {
        reveal_strlit("permissions");
    }
    lemma_bool_value(b);
    lemma_entry_index(st, "permissions"@, bool_text(b));
    lemma_key_permissions(st.index, b);
    lemma_kv_step(st, lines, at, "permissions"@, bool_text(b), LoadState { index: IndexSettings { permissions: b, ..st.index }, ..st });
}

proof fn lemma_step_fast_extension(st: LoadState, lines: Seq<Seq<char>>, at: int, b: bool)
    requires
        0 <= at < lines.len(),
        lines[at] == kv("fast_extension"@, bool_text(b)),
        st.section == "index"@,
    ensures
        lines_spec(st, lines, at) == lines_spec(
            LoadState { index: IndexSettings { fast_extension: b, ..st.index }, ..st },
            lines,
            at + 1,
        ),
{
    assert(key_ok("fast_extension"@)) by {
        reveal_strlit("fast_extension");
    }
    lemma_bool_value(b);
    lemma_entry_index(st, "fast_extension"@, bool_text(b));
    lemma_key_fast_extension(st.index, b);
    lemma_kv_step(st, lines, at, "fast_extension"@, bool_text(b), LoadState { index: IndexSettings { fast_extension: b, ..st.index }, ..st });
}

proof fn lemma_step_whole_filename_wildcards(st: LoadState, lines: Seq<Seq<char>>, at: int, b: bool)
    requires
        0 <= at < lines.len(),
        lines[at] == kv("whole_filename_wildcards"@, bool_text(b)),
        st.section == "index"@,
    ensures
        lines_spec(st, lines, at) == lines_spec(
            LoadState { index: IndexSettings { whole_filename_wildcards: b, ..st.index }, ..st },
            lines,
            at + 1,
        ),
{
    assert(key_ok("whole_filename_wildcards"@)) by {
        reveal_strlit("whole_filename_wildcards");
    }
    lemma_bool_value(b);
    lemma_entry_index(st, "whole_filename_wildcards"@, bool_text(b));
    lemma_key_whole_filename_wildcards(st.index, b);
    lemma_kv_step(st, lines, at, "whole_filename_wildcards"@, bool_text(b), LoadState { index: IndexSettings { whole_filename_wildcards: b, ..st.index }, ..st });
}

proof fn lemma_step_operator_precedence(st: LoadState, lines: Seq<Seq<char>>, at: int, p: OperatorOrder)
    requires
        0 <= at < lines.len(),
        lines[at] == kv("operator_precedence"@, precedence_text(p)),
        st.section == "index"@,
    ensures
        lines_spec(st, lines, at) == lines_spec(
            LoadState { index: IndexSettings { precedence: p, ..st.index }, ..st },
            lines,
            at + 1,
        ),
{
    assert(key_ok("operator_precedence"@)) by {
        reveal_strlit("operator_precedence");
    }
    lemma_precedence_value(p);
    lemma_entry_index(st, "operator_precedence"@, precedence_text(p));
    lemma_key_operator_precedence(st.index, p);
    lemma_kv_step(st, lines, at, "operator_precedence"@, precedence_text(p), LoadState { index: IndexSettings { precedence: p, ..st.index }, ..st });
}

proof fn lemma_run_index_head(st: LoadState, lines: Seq<Seq<char>>, at: int, ix: IndexSettings)
    requires
        0 <= at,
        at + 10 <= lines.len(),
        lines[at + 0] == header("index"@),
        lines[at + 1] == kv("size"@, bool_text(ix.size)),
        lines[at + 2] == kv("date_modified"@, bool_text(ix.date_modified)),
        lines[at + 3] == kv("date_created"@, bool_text(ix.date_created)),
        lines[at + 4] == kv("date_accessed"@, bool_text(ix.date_accessed)),
    ensures
        lines_spec(st, lines, at) == lines_spec(
            LoadState {
                index: IndexSettings {
                    size: ix.size,
                    date_modified: ix.date_modified,
                    date_created: ix.date_created,
                    date_accessed: ix.date_accessed,
                    ..st.index
                },
                section: "index"@,
                ..st
            },
            lines,
            at + 5,
        ),
{
    assert(clean("index"@)) by {
        reveal_strlit("index");
    }
    lemma_header_step(st, lines, at, "index"@);
    let s0 = LoadState { section: "index"@, ..st };
    lemma_step_size(s0, lines, at + 1, ix.size);
    let s1 = LoadState { index: IndexSettings { size: ix.size, ..s0.index }, ..s0 };
    lemma_step_date_modified(s1, lines, at + 2, ix.date_modified);
    let s2 = LoadState { index: IndexSettings { date_modified: ix.date_modified, ..s1.index }, ..s1 };
    lemma_step_date_created(s2, lines, at + 3, ix.date_created);
    let s3 = LoadState { index: IndexSettings { date_created: ix.date_created, ..s2.index }, ..s2 };
    lemma_step_date_accessed(s3, lines, at + 4, ix.date_accessed);
}

proof fn lemma_run_index_tail(st: LoadState, lines: Seq<Seq<char>>, at: int, ix: IndexSettings)
    requires
        0 <= at,
        at + 10 <= lines.len(),
        lines[at + 5] == kv("permissions"@, bool_text(ix.permissions)),
        lines[at + 6] == kv("fast_extension"@, bool_text(ix.fast_extension)),
        lines[at + 7] == kv("whole_filename_wildcards"@, bool_text(ix.whole_filename_wildcards)),
        lines[at + 8] == kv("operator_precedence"@, precedence_text(ix.precedence)),
        lines[at + 9] == Seq::<char>::empty(),
        st.section == "index"@,
    ensures
        lines_spec(st, lines, at + 5) == lines_spec(
            LoadState {
                index: IndexSettings {
                    permissions: ix.permissions,
                    fast_extension: ix.fast_extension,
                    whole_filename_wildcards: ix.whole_filename_wildcards,
                    precedence: ix.precedence,
                    ..st.index
                },
                ..st
            },
            lines,
            at + 10,
        ),
{
    lemma_step_permissions(st, lines, at + 5, ix.permissions);
    let s5 = LoadState { index: IndexSettings { permissions: ix.permissions, ..st.index }, ..st };
    lemma_step_fast_extension(s5, lines, at + 6, ix.fast_extension);
    let s6 = LoadState { index: IndexSettings { fast_extension: ix.fast_extension, ..s5.index }, ..s5 };
    lemma_step_whole_filename_wildcards(s6, lines, at + 7, ix.whole_filename_wildcards);
    let s7 = LoadState { index: IndexSettings { whole_filename_wildcards: ix.whole_filename_wildcards, ..s6.index }, ..s6 };
    lemma_step_operator_precedence(s7, lines, at + 8, ix.precedence);
    let s8 = LoadState { index: IndexSettings { precedence: ix.precedence, ..s7.index }, ..s7 };
    lemma_blank_step(s8, lines, at + 9);
}

proof fn lemma_run_index(st: LoadState, lines: Seq<Seq<char>>, at: int, ix: IndexSettings)
    requires
        0 <= at,
        at + 10 <= lines.len(),
        lines[at + 0] == header("index"@),
        lines[at + 1] == kv("size"@, bool_text(ix.size)),
        lines[at + 2] == kv("date_modified"@, bool_text(ix.date_modified)),
        lines[at + 3] == kv("date_created"@, bool_text(ix.date_created)),
        lines[at + 4] == kv("date_accessed"@, bool_text(ix.date_accessed)),
        lines[at + 5] == kv("permissions"@, bool_text(ix.permissions)),
        lines[at + 6] == kv("fast_extension"@, bool_text(ix.fast_extension)),
        lines[at + 7] == kv("whole_filename_wildcards"@, bool_text(ix.whole_filename_wildcards)),
        lines[at + 8] == kv("operator_precedence"@, precedence_text(ix.precedence)),
        lines[at + 9] == Seq::<char>::empty(),
    ensures
        lines_spec(st, lines, at) == lines_spec(
            LoadState { index: ix, section: "index"@, ..st },
            lines,
            at + 10,
        ),
{
    lemma_run_index_head(st, lines, at, ix);
    let s4 = LoadState {
        index: IndexSettings {
            size: ix.size,
            date_modified: ix.date_modified,
            date_created: ix.date_created,
            date_accessed: ix.date_accessed,
            ..st.index
        },
        section: "index"@,
        ..st
    };
    lemma_run_index_tail(s4, lines, at, ix);
    assert(LoadState {
        index: IndexSettings {
            permissions: ix.permissions,
            fast_extension: ix.fast_extension,
            whole_filename_wildcards: ix.whole_filename_wildcards,
            precedence: ix.precedence,
            ..s4.index
        },
        ..s4
    } == LoadState { index: ix, section: "index"@, ..st });
}



proof fn lemma_kv_clean(key: Seq<char>, value: Seq<char>)
    requires
        clean(key),
        clean(value),
    ensures
        clean(kv(key, value)),
{
    reveal(kv);
    reveal_strlit(" = ");
    let mid = " = "@;
    let t = key + mid + value;
    assert forall|i: int| 0 <= i < t.len() implies t[i] != '\n' && t[i] != '#' by {
        if i < key.len() {
            assert(t[i] == key[i]);
        } else if i < key.len() + mid.len() {
            assert(t[i] == mid[i - key.len()]);
        } else {
            assert(t[i] == value[i - key.len() - mid.len()]);
        }
    }
}

proof fn lemma_header_clean(name: Seq<char>)
    requires
        clean(name),
    ensures
        clean(header(name)),
{
    reveal(header);
    let t = header(name);
    assert forall|i: int| 0 <= i < t.len() implies t[i] != '\n' && t[i] != '#' by {
        if 0 < i < t.len() - 1 {
            assert(t[i] == name[i - 1]);
        }
    }
}

proof fn lemma_index_lines_clean(ix: IndexSettings)
    ensures
        forall|i: int| 0 <= i < 10 ==> clean(#[trigger] index_lines(ix)[i]),
{
    let l = index_lines(ix);
    assert(clean("index"@)) by {
        reveal_strlit("index");
    }
    lemma_header_clean("index"@);
    assert(clean(l[0]));
    assert(clean("size"@)) by {
        reveal_strlit("size");
    }
    lemma_bool_value(ix.size);
    lemma_kv_clean("size"@, bool_text(ix.size));
    assert(clean(l[1]));
    assert(clean("date_modified"@)) by {
        reveal_strlit("date_modified");
    }
    lemma_bool_value(ix.date_modified);
    lemma_kv_clean("date_modified"@, bool_text(ix.date_modified));
    assert(clean(l[2]));
    assert(clean("date_created"@)) by {
        reveal_strlit("date_created");
    }
    lemma_bool_value(ix.date_created);
    lemma_kv_clean("date_created"@, bool_text(ix.date_created));
    assert(clean(l[3]));
    assert(clean("date_accessed"@)) by {
        reveal_strlit("date_accessed");
    }
    lemma_bool_value(ix.date_accessed);
    lemma_kv_clean("date_accessed"@, bool_text(ix.date_accessed));
    assert(clean(l[4]));
    assert(clean("permissions"@)) by {
        reveal_strlit("permissions");
    }
    lemma_bool_value(ix.permissions);
    lemma_kv_clean("permissions"@, bool_text(ix.permissions));
    assert(clean(l[5]));
    assert(clean("fast_extension"@)) by {
        reveal_strlit("fast_extension");
    }
    lemma_bool_value(ix.fast_extension);
    lemma_kv_clean("fast_extension"@, bool_text(ix.fast_extension));
    assert(clean(l[6]));
    assert(clean("whole_filename_wildcards"@)) by {
        reveal_strlit("whole_filename_wildcards");
    }
    lemma_bool_value(ix.whole_filename_wildcards);
    lemma_kv_clean("whole_filename_wildcards"@, bool_text(ix.whole_filename_wildcards));
    assert(clean(l[7]));
    assert(clean("operator_precedence"@)) by {
        reveal_strlit("operator_precedence");
    }
    lemma_precedence_value(ix.precedence);
    lemma_kv_clean("operator_precedence"@, precedence_text(ix.precedence));
    assert(clean(l[8]));
    assert(l[9] =~= Seq::<char>::empty());
    assert(clean(l[9]));
    assert forall|i: int| 0 <= i < 10 implies clean(#[trigger] l[i]) by {
        if i == 0 {
            assert(clean(l[0]));
        } else if i == 1 {
            assert(clean(l[1]));
        } else if i == 2 {
            assert(clean(l[2]));
        } else if i == 3 {
            assert(clean(l[3]));
        } else if i == 4 {
            assert(clean(l[4]));
        } else if i == 5 {
            assert(clean(l[5]));
        } else if i == 6 {
            assert(clean(l[6]));
        } else if i == 7 {
            assert(clean(l[7]));
        } else if i == 8 {
            assert(clean(l[8]));
        } else if i == 9 {
            assert(clean(l[9]));
        }
    }
}

proof fn lemma_scope_lines_clean(c: ConfigView)
    requires
        scope_writable(c),
    ensures
        forall|i: int| 0 <= i < 14 ==> clean(#[trigger] scope_lines(c)[i]),
{
    let l = scope_lines(c);
    assert(clean("roots"@)) by {
        reveal_strlit("roots");
    }
    lemma_header_clean("roots"@);
    assert(clean(l[0]));
    assert(clean("auto_detect"@)) by {
        reveal_strlit("auto_detect");
    }
    lemma_bool_value(c.roots.len() == 0);
    lemma_kv_clean("auto_detect"@, bool_text(c.roots.len() == 0));
    assert(clean(l[1]));
    assert(clean("include"@)) by {
        reveal_strlit("include");
    }
    lemma_array_value(c.roots);
    lemma_kv_clean("include"@, array_text(c.roots));
    assert(clean(l[2]));
    assert(clean("exclude_fstypes"@)) by {
        reveal_strlit("exclude_fstypes");
    }
    lemma_array_value(c.exclude_fstypes);
    lemma_kv_clean("exclude_fstypes"@, array_text(c.exclude_fstypes));
    assert(clean(l[3]));
    assert(l[4] =~= Seq::<char>::empty());
    assert(clean(l[4]));
    assert(clean("exclude"@)) by {
        reveal_strlit("exclude");
    }
    lemma_header_clean("exclude"@);
    assert(clean(l[5]));
    assert(clean("hidden_files"@)) by {
        reveal_strlit("hidden_files");
    }
    lemma_bool_value(c.exclude_hidden);
    lemma_kv_clean("hidden_files"@, bool_text(c.exclude_hidden));
    assert(clean(l[6]));
    assert(clean("patterns"@)) by {
        reveal_strlit("patterns");
    }
    lemma_array_value(c.exclude_patterns);
    lemma_kv_clean("patterns"@, array_text(c.exclude_patterns));
    assert(clean(l[7]));
    assert(clean("folders"@)) by {
        reveal_strlit("folders");
    }
    lemma_array_value(c.exclude_folders);
    lemma_kv_clean("folders"@, array_text(c.exclude_folders));
    assert(clean(l[8]));
    assert(clean("include_only"@)) by {
        reveal_strlit("include_only");
    }
    lemma_array_value(c.include_only);
    lemma_kv_clean("include_only"@, array_text(c.include_only));
    assert(clean(l[9]));
    assert(l[10] =~= Seq::<char>::empty());
    assert(clean(l[10]));
    assert(clean("polling"@)) by {
        reveal_strlit("polling");
    }
    lemma_header_clean("polling"@);
    assert(clean(l[11]));
    assert(clean("interval_secs"@)) by {
        reveal_strlit("interval_secs");
    }
    lemma_decimal_value(c.poll_interval_secs);
    lemma_kv_clean("interval_secs"@, decimal(c.poll_interval_secs as nat));
    assert(clean(l[12]));
    assert(l[13] =~= Seq::<char>::empty());
    assert(clean(l[13]));
    assert forall|i: int| 0 <= i < 14 implies clean(#[trigger] l[i]) by {
        if i == 0 {
            assert(clean(l[0]));
        } else if i == 1 {
            assert(clean(l[1]));
        } else if i == 2 {
            assert(clean(l[2]));
        } else if i == 3 {
            assert(clean(l[3]));
        } else if i == 4 {
            assert(clean(l[4]));
        } else if i == 5 {
            assert(clean(l[5]));
        } else if i == 6 {
            assert(clean(l[6]));
        } else if i == 7 {
            assert(clean(l[7]));
        } else if i == 8 {
            assert(clean(l[8]));
        } else if i == 9 {
            assert(clean(l[9]));
        } else if i == 10 {
            assert(clean(l[10]));
        } else if i == 11 {
            assert(clean(l[11]));
        } else if i == 12 {
            assert(clean(l[12]));
        } else if i == 13 {
            assert(clean(l[13]));
        }
    }
}

proof fn lemma_keyboard_lines_clean(k: KeyboardView)
    requires
        keyboard_writable(k),
    ensures
        forall|i: int| 0 <= i < 9 ==> clean(#[trigger] keyboard_lines(k)[i]),
{
    let l = keyboard_lines(k);
    assert(clean("keyboard"@)) by {
        reveal_strlit("keyboard");
    }
    lemma_header_clean("keyboard"@);
    assert(clean(l[0]));
    assert(clean("new_window_hotkey"@)) by {
        reveal_strlit("new_window_hotkey");
    }
    lemma_quoted_value(k.new_window_hotkey);
    lemma_kv_clean("new_window_hotkey"@, quoted(k.new_window_hotkey));
    assert(clean(l[1]));
    assert(clean("show_window_hotkey"@)) by {
        reveal_strlit("show_window_hotkey");
    }
    lemma_quoted_value(k.show_window_hotkey);
    lemma_kv_clean("show_window_hotkey"@, quoted(k.show_window_hotkey));
    assert(clean(l[2]));
    assert(clean("toggle_window_hotkey"@)) by {
        reveal_strlit("toggle_window_hotkey");
    }
    lemma_quoted_value(k.toggle_window_hotkey);
    lemma_kv_clean("toggle_window_hotkey"@, quoted(k.toggle_window_hotkey));
    assert(clean(l[3]));
    assert(l[4] =~= Seq::<char>::empty());
    assert(clean(l[4]));
    assert(clean("keyboard.shortcuts"@)) by {
        reveal_strlit("keyboard.shortcuts");
    }
    lemma_header_clean("keyboard.shortcuts"@);
    assert(clean(l[5]));
    assert(clean("global"@)) by {
        reveal_strlit("global");
    }
    lemma_entries_value(k.command_shortcuts, KeyboardScope::Global);
    lemma_kv_clean("global"@, array_text(scope_entries(k.command_shortcuts, KeyboardScope::Global)));
    assert(clean(l[6]));
    assert(clean("search_edit"@)) by {
        reveal_strlit("search_edit");
    }
    lemma_entries_value(k.command_shortcuts, KeyboardScope::SearchEdit);
    lemma_kv_clean("search_edit"@, array_text(scope_entries(k.command_shortcuts, KeyboardScope::SearchEdit)));
    assert(clean(l[7]));
    assert(clean("result_list"@)) by {
        reveal_strlit("result_list");
    }
    lemma_entries_value(k.command_shortcuts, KeyboardScope::ResultList);
    lemma_kv_clean("result_list"@, array_text(scope_entries(k.command_shortcuts, KeyboardScope::ResultList)));
    assert(clean(l[8]));
    assert forall|i: int| 0 <= i < 9 implies clean(#[trigger] l[i]) by {
        if i == 0 {
            assert(clean(l[0]));
        } else if i == 1 {
            assert(clean(l[1]));
        } else if i == 2 {
            assert(clean(l[2]));
        } else if i == 3 {
            assert(clean(l[3]));
        } else if i == 4 {
            assert(clean(l[4]));
        } else if i == 5 {
            assert(clean(l[5]));
        } else if i == 6 {
            assert(clean(l[6]));
        } else if i == 7 {
            assert(clean(l[7]));
        } else if i == 8 {
            assert(clean(l[8]));
        }
    }
}

proof fn lemma_file_lines_split(c: ConfigView)
    requires
        writable(c),
    ensures
        split_on(toml_text(c), '\n') == file_lines(c).push(Seq::<char>::empty()),
{
    let fl = file_lines(c);
    let a = index_lines(c.index);
    let b = scope_lines(c);
    let k = keyboard_lines(c.keyboard);
    lemma_index_lines_clean(c.index);
    lemma_scope_lines_clean(c);
    lemma_keyboard_lines_clean(c.keyboard);
    assert forall|i: int| 0 <= i < fl.len() implies no_newline(#[trigger] fl[i]) by {
        if i < 10 {
            assert(fl[i] == a[i]);
            assert(clean(a[i]));
        } else if i < 24 {
            assert(fl[i] == b[i - 10]);
            assert(clean(b[i - 10]));
        } else {
            assert(fl[i] == k[i - 24]);
            assert(clean(k[i - 24]));
        }
    }
    lemma_split_lines(fl, Seq::<char>::empty());
    assert(text_of_lines(fl) + Seq::<char>::empty() =~= text_of_lines(fl));
}

/// What the file holds after its sections are read: the settings of `c`, the shortcut entries
/// by scope, and the last section.
pub open spec fn read_state(c: ConfigView, home: Option<Seq<char>>) -> LoadState {
    LoadState {
        index: c.index,
        scope: ScopeView {
            roots: c.roots,
            fstypes: c.exclude_fstypes,
            hidden: c.exclude_hidden,
            patterns: c.exclude_patterns,
            folders: c.exclude_folders,
            include_only: c.include_only,
        },
        interval: c.poll_interval_secs,
        keys: KeysView {
            new_window: c.keyboard.new_window_hotkey,
            show_window: c.keyboard.show_window_hotkey,
            toggle_window: c.keyboard.toggle_window_hotkey,
            global: scope_entries(c.keyboard.command_shortcuts, KeyboardScope::Global),
            search_edit: scope_entries(c.keyboard.command_shortcuts, KeyboardScope::SearchEdit),
            result_list: scope_entries(c.keyboard.command_shortcuts, KeyboardScope::ResultList),
        },
        section: "keyboard.shortcuts"@,
    }
}

proof fn lemma_read_lines(c: ConfigView, home: Option<Seq<char>>)
    requires
        writable(c),
    ensures
        lines_spec(initial_state(home), file_lines(c).push(Seq::<char>::empty()), 0) == Ok::<
            LoadState,
            Seq<char>,
        >(read_state(c, home)),
{
    let fl = file_lines(c);
    let lines = fl.push(Seq::<char>::empty());
    let a = index_lines(c.index);
    let ix = c.index;
    assert forall|i: int| 0 <= i < 10 implies lines[i] == #[trigger] a[i] by {
        assert(lines[i] == fl[i]);
    }
    assert(lines[0] == a[0]);
    assert(lines[1] == a[1]);
    assert(lines[2] == a[2]);
    assert(lines[3] == a[3]);
    assert(lines[4] == a[4]);
    assert(lines[5] == a[5]);
    assert(lines[6] == a[6]);
    assert(lines[7] == a[7]);
    assert(lines[8] == a[8]);
    assert(lines[9] == a[9]);
    let st0 = initial_state(home);
    lemma_run_index(st0, lines, 0, ix);
    let st1 = LoadState { index: ix, section: "index"@, ..st0 };
    assert(lines.subrange(10, 24) =~= scope_lines(c));
    lemma_run_scope(st1, lines, 10, c);
    let st2 = LoadState {
        scope: ScopeView {
            roots: c.roots,
            fstypes: c.exclude_fstypes,
            hidden: c.exclude_hidden,
            patterns: c.exclude_patterns,
            folders: c.exclude_folders,
            include_only: c.include_only,
        },
        interval: c.poll_interval_secs,
        section: "polling"@,
        ..st1
    };
    assert(lines.subrange(24, 33) =~= keyboard_lines(c.keyboard));
    lemma_run_keyboard(st2, lines, 24, c.keyboard);
    let k = c.keyboard;
    let st3 = LoadState {
        keys: KeysView {
            new_window: k.new_window_hotkey,
            show_window: k.show_window_hotkey,
            toggle_window: k.toggle_window_hotkey,
            global: scope_entries(k.command_shortcuts, KeyboardScope::Global),
            search_edit: scope_entries(k.command_shortcuts, KeyboardScope::SearchEdit),
            result_list: scope_entries(k.command_shortcuts, KeyboardScope::ResultList),
        },
        section: "keyboard.shortcuts"@,
        ..st2
    };
    assert(lines[33] == Seq::<char>::empty());
    lemma_blank_step(st3, lines, 33);
    assert(lines_spec(st3, lines, 34) == Ok::<LoadState, Seq<char>>(st3));
    assert(st3 == read_state(c, home));
}

/// What `to_toml` writes, `parse` reads back as the same settings, whatever the home
/// directory: for every setting that the file can hold as it is (see `writable`).
pub proof fn law_settings_file_reads_back(c: ConfigView, home: Option<Seq<char>>)
    requires
        writable(c),
    ensures
        parse_spec(toml_text(c), home) == Ok::<ConfigView, Seq<char>>(c),
{
    lemma_file_lines_split(c);
    lemma_read_lines(c, home);
    let st = read_state(c, home);
    let v = c.keyboard.command_shortcuts;
    lemma_entries_ok(v, KeyboardScope::Global);
    lemma_entries_ok(v, KeyboardScope::SearchEdit);
    lemma_entries_ok(v, KeyboardScope::ResultList);
    assert(all_shortcuts(st.keys) == Ok::<Seq<ShortcutView>, Seq<char>>(v));
    assert(config_of(st, v) == c);
}

} // verus!
