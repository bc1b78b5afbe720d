//! Keyboard settings as the settings window edits them: accelerators such as `ctrl+shift+n`
//! are brought into one spelling (`Ctrl+Shift+N`), and a set of shortcuts is refused when two
//! of them would fire on the same keys in overlapping scopes.
use crate::config::{
    Config, ConfigView, KeyboardConfig, KeyboardScope, KeyboardShortcutConfig, KeyboardView,
    ShortcutView, shortcuts_view,
};
use crate::text::{
    ascii_lower_chars, ascii_upper_chars, chars_of, eq_lit, push_str, slice_chars, split_chars,
    split_on, string_from_chars, string_of, trim, trim_chars, trim_start, trim_end, is_space,
    split_after,
};
use crate::order::{holds_position, is_permutation};
use vstd::prelude::*;

verus! {

#[derive(Debug, Clone, PartialEq, Eq)]
pub struct KeyboardShortcutPayload {
    pub command_id: String,
    pub scope: String,
    pub accelerator: String,
}

#[derive(Debug, Clone, PartialEq, Eq)]
pub struct KeyboardSettingsPayload {
    pub new_window_hotkey: String,
    pub show_window_hotkey: String,
    pub toggle_window_hotkey: String,
    pub command_shortcuts: Vec<KeyboardShortcutPayload>,
}

pub struct ShortcutPayloadView {
    pub command_id: Seq<char>,
    pub scope: Seq<char>,
    pub accelerator: Seq<char>,
}

pub struct SettingsView {
    pub new_window_hotkey: Seq<char>,
    pub show_window_hotkey: Seq<char>,
    pub toggle_window_hotkey: Seq<char>,
    pub command_shortcuts: Seq<ShortcutPayloadView>,
}

impl View for KeyboardShortcutPayload {
    type V = ShortcutPayloadView;

    open spec fn view(&self) -> ShortcutPayloadView {
        ShortcutPayloadView {
            command_id: self.command_id@,
            scope: self.scope@,
            accelerator: self.accelerator@,
        }
    }
}

pub open spec fn payloads_view(v: Seq<KeyboardShortcutPayload>) -> Seq<ShortcutPayloadView> {
    Seq::new(v.len(), |i: int| v[i]@)
}

impl View for KeyboardSettingsPayload {
    type V = SettingsView;

    open spec fn view(&self) -> SettingsView {
        SettingsView {
            new_window_hotkey: self.new_window_hotkey@,
            show_window_hotkey: self.show_window_hotkey@,
            toggle_window_hotkey: self.toggle_window_hotkey@,
            command_shortcuts: payloads_view(self.command_shortcuts@),
        }
    }
}

/// The one spelling of a key, from its lower-cased name; `None` for a key that is not known.
pub open spec fn key_name(l: Seq<char>) -> Option<Seq<char>> {
    if l == "enter"@ || l == "return"@ {
        Some("Enter"@)
    } else if l == "escape"@ || l == "esc"@ {
        Some("Escape"@)
    } else if l == "arrowup"@ || l == "up"@ {
        Some("ArrowUp"@)
    } else if l == "arrowdown"@ || l == "down"@ {
        Some("ArrowDown"@)
    } else if l == "arrowleft"@ || l == "left"@ {
        Some("ArrowLeft"@)
    } else if l == "arrowright"@ || l == "right"@ {
        Some("ArrowRight"@)
    } else if l == "delete"@ || l == "del"@ {
        Some("Delete"@)
    } else if l == "backspace"@ {
        Some("Backspace"@)
    } else if l == "space"@ || l == "spacebar"@ {
        Some("Space"@)
    } else if l == "period"@ || l == "."@ {
        Some("Period"@)
    } else if l == "comma"@ || l == ","@ {
        Some("Comma"@)
    } else if l == "tab"@ {
        Some("Tab"@)
    } else if l.len() == 1 && (l[0] as u32) < 128 {
        Some(ascii_upper_chars(l))
    } else if l.len() > 0 && l[0] == 'f' && (forall|i: int|
        1 <= i < l.len() ==> '0' <= #[trigger] l[i] <= '9') {
        Some("F"@ + l.drop_first())
    } else if l == "mediatrackprevious"@ {
        Some("MediaTrackPrevious"@)
    } else if l == "mediatracknext"@ {
        Some("MediaTrackNext"@)
    } else if l == "mediaplaypause"@ {
        Some("MediaPlayPause"@)
    } else if l == "mediastop"@ {
        Some("MediaStop"@)
    } else if l == "audiovolumedown"@ {
        Some("AudioVolumeDown"@)
    } else if l == "audiovolumeup"@ {
        Some("AudioVolumeUp"@)
    } else if l == "audiovolumemute"@ {
        Some("AudioVolumeMute"@)
    } else {
        None
    }
}

/// The spelling of a one-character key or of a function key `f` and digits.
pub open spec fn short_key(l: Seq<char>) -> Option<Seq<char>> {
    if l.len() == 1 && (l[0] as u32) < 128 {
        Some(ascii_upper_chars(l))
    } else if l.len() > 0 && l[0] == 'f' && (forall|i: int|
        1 <= i < l.len() ==> '0' <= #[trigger] l[i] <= '9') {
        Some("F"@ + l.drop_first())
    } else {
        None
    }
}

/// The media keys, which the hotkey handling of this platform (Linux) cannot take.
pub open spec fn media_key(k: Seq<char>) -> bool {
    k == "MediaTrackPrevious"@ || k == "MediaTrackNext"@ || k == "MediaPlayPause"@ || k
        == "MediaStop"@ || k == "AudioVolumeDown"@ || k == "AudioVolumeUp"@ || k
        == "AudioVolumeMute"@
}

/// One key of an accelerator in its one spelling.
pub open spec fn key_spec(value: Seq<char>) -> Result<Seq<char>, Seq<char>> {
    match key_name(ascii_lower_chars(trim(value))) {
        None => Err("unsupported key in accelerator: "@ + value),
        Some(k) => if media_key(k) {
            Err(
                "unsupported key in accelerator: "@ + k
                    + " (not currently supported by Tauri hotkey handling on Linux)"@,
            )
        } else {
            Ok(k)
        },
    }
}

/// The modifiers and the key of an accelerator read so far.
pub struct Chord {
    pub ctrl: bool,
    pub alt: bool,
    pub shift: bool,
    pub meta: bool,
    pub key: Option<Seq<char>>,
}

/// One `+`-separated part applied; `value` is the whole accelerator, for the messages.
pub open spec fn part_spec(c: Chord, raw: Seq<char>, value: Seq<char>) -> Result<Chord, Seq<char>> {
    let p = trim(raw);
    let l = ascii_lower_chars(p);
    if p.len() == 0 {
        Err("invalid accelerator: "@ + value)
    } else if l == "ctrl"@ || l == "control"@ {
        Ok(Chord { ctrl: true, ..c })
    } else if l == "alt"@ || l == "option"@ {
        Ok(Chord { alt: true, ..c })
    } else if l == "shift"@ {
        Ok(Chord { shift: true, ..c })
    } else if l == "meta"@ || l == "cmd"@ || l == "command"@ || l == "super"@ {
        Ok(Chord { meta: true, ..c })
    } else if c.key is Some {
        Err("accelerator must contain exactly one key: "@ + value)
    } else {
        match key_spec(p) {
            Ok(k) => Ok(Chord { key: Some(k), ..c }),
            Err(e) => Err(e),
        }
    }
}

pub open spec fn parts_spec(parts: Seq<Seq<char>>, value: Seq<char>) -> Result<Chord, Seq<char>>
    decreases parts.len(),
{
    if parts.len() == 0 {
        Ok(Chord { ctrl: false, alt: false, shift: false, meta: false, key: None })
    } else {
        match parts_spec(parts.drop_last(), value) {
            Err(e) => Err(e),
            Ok(c) => part_spec(c, parts.last(), value),
        }
    }
}

pub open spec fn mod_text(b: bool, name: Seq<char>) -> Seq<char> {
    if b {
        name + "+"@
    } else {
        Seq::empty()
    }
}

/// An accelerator in its one spelling: `Ctrl`, `Alt`, `Shift`, `Meta` as given, in that order,
/// then the key; blank stays blank.
pub open spec fn accelerator_spec(value: Seq<char>) -> Result<Seq<char>, Seq<char>> {
    let t = trim(value);
    if t.len() == 0 {
        Ok(Seq::empty())
    } else {
        match parts_spec(split_on(t, '+'), value) {
            Err(e) => Err(e),
            Ok(c) => match c.key {
                None => Err("accelerator is missing a key: "@ + value),
                Some(k) => Ok(
                    mod_text(c.ctrl, "Ctrl"@) + mod_text(c.alt, "Alt"@) + mod_text(c.shift, "Shift"@)
                        + mod_text(c.meta, "Meta"@) + k,
                ),
            },
        }
    }
}

fn ascii_lower_vec(s: &[char]) -> (r: Vec<char>)
    ensures
        r@ == ascii_lower_chars(s@),
{
    let mut out: Vec<char> = Vec::new();
    let mut i: usize = 0;
    while i < s.len()
        invariant
            i <= s@.len(),
            out@ == ascii_lower_chars(s@.take(i as int)),
        decreases s.len() - i,
    {
        let c = s[i];
        let l = if 'A' <= c && c <= 'Z' {
            ((c as u32) + 32) as u8 as char
        } else {
            c
        };
        out.push(l);
        assert(ascii_lower_chars(s@.take(i + 1)) =~= ascii_lower_chars(s@.take(i as int)).push(
            crate::text::ascii_lower_char(c),
        ));
        i += 1;
    }
    assert(s@.take(s@.len() as int) =~= s@);
    out
}

fn named_key(l: &[char]) -> (r: Option<&'static str>)
    ensures
        match r {
            Some(k) => key_name(l@) == Some(k@),
            None => key_name(l@) == short_key(l@),
        },
{
    if eq_lit(l, "enter") || eq_lit(l, "return") {
        Some("Enter")
    } else if eq_lit(l, "escape") || eq_lit(l, "esc") {
        Some("Escape")
    } else if eq_lit(l, "arrowup") || eq_lit(l, "up") {
        Some("ArrowUp")
    } else if eq_lit(l, "arrowdown") || eq_lit(l, "down") {
        Some("ArrowDown")
    } else if eq_lit(l, "arrowleft") || eq_lit(l, "left") {
        Some("ArrowLeft")
    } else if eq_lit(l, "arrowright") || eq_lit(l, "right") {
        Some("ArrowRight")
    } else if eq_lit(l, "delete") || eq_lit(l, "del") {
        Some("Delete")
    } else if eq_lit(l, "backspace") {
        Some("Backspace")
    } else if eq_lit(l, "space") || eq_lit(l, "spacebar") {
        Some("Space")
    } else if eq_lit(l, "period") || eq_lit(l, ".") {
        Some("Period")
    } else if eq_lit(l, "comma") || eq_lit(l, ",") {
        Some("Comma")
    } else if eq_lit(l, "tab") {
        Some("Tab")
    } else if l.len() == 1 || (l.len() > 0 && l[0] == 'f') {
        proof {
            reveal_strlit("mediatrackprevious");
            reveal_strlit("mediatracknext");
            reveal_strlit("mediaplaypause");
            reveal_strlit("mediastop");
            reveal_strlit("audiovolumedown");
            reveal_strlit("audiovolumeup");
            reveal_strlit("audiovolumemute");
        }
        None
    } else if eq_lit(l, "mediatrackprevious") {
        Some("MediaTrackPrevious")
    } else if eq_lit(l, "mediatracknext") {
        Some("MediaTrackNext")
    } else if eq_lit(l, "mediaplaypause") {
        Some("MediaPlayPause")
    } else if eq_lit(l, "mediastop") {
        Some("MediaStop")
    } else if eq_lit(l, "audiovolumedown") {
        Some("AudioVolumeDown")
    } else if eq_lit(l, "audiovolumeup") {
        Some("AudioVolumeUp")
    } else if eq_lit(l, "audiovolumemute") {
        Some("AudioVolumeMute")
    } else {
        None
    }
}

fn joined(prefix: &str, rest: &[char]) -> (e: String)
    ensures
        e@ == prefix@ + rest@,
{
    let mut m = string_of(prefix);
    let r = string_from_chars(rest);
    push_str(&mut m, r.as_str());
    m
}

fn all_digits_from(l: &[char], start: usize) -> (r: bool)
    ensures
        r == (forall|i: int| start <= i < l@.len() ==> '0' <= #[trigger] l@[i] <= '9'),
{
    let mut i = start;
    while i < l.len()
        invariant
            start <= i,
            forall|j: int| start <= j < i && j < l@.len() ==> '0' <= #[trigger] l@[j] <= '9',
        decreases l.len() - i,
    {
        if !('0' <= l[i] && l[i] <= '9') {
            return false;
        }
        i += 1;
    }
    true
}

fn normalize_key(value: &[char]) -> (r: Result<String, String>)
    ensures
        match r {
            Ok(k) => key_spec(value@) == Ok::<Seq<char>, Seq<char>>(k@),
            Err(e) => key_spec(value@) == Err::<Seq<char>, Seq<char>>(e@),
        },
{
    let l = ascii_lower_vec(trim_chars(value).as_slice());
    let n = l.len();
    let name: Option<String> = match named_key(l.as_slice()) {
        Some(k) => Some(string_of(k)),
        None => if n == 1 && (l[0] as u32) < 128 {
            let c = l[0];
            let u = if 'a' <= c && c <= 'z' {
                ((c as u32) - 32) as u8 as char
            } else {
                c
            };
            let mut s = String::new();
            crate::text::push_char(&mut s, u);
            assert(s@ =~= ascii_upper_chars(l@));
            Some(s)
        } else if n > 0 && l[0] == 'f' && all_digits_from(l.as_slice(), 1) {
            let mut s = string_of("F");
            let rest = string_from_chars(slice_chars(l.as_slice(), 1, n).as_slice());
            push_str(&mut s, rest.as_str());
            assert(l@.subrange(1, n as int) =~= l@.drop_first());
            Some(s)
        } else {
            None
        },
    };
    match name {
        None => Err(joined("unsupported key in accelerator: ", value)),
        Some(k) => {
            let kc = chars_of(k.as_str());
            let kv = kc.as_slice();
            if eq_lit(kv, "MediaTrackPrevious") || eq_lit(kv, "MediaTrackNext") || eq_lit(
                kv,
                "MediaPlayPause",
            ) || eq_lit(kv, "MediaStop") || eq_lit(kv, "AudioVolumeDown") || eq_lit(
                kv,
                "AudioVolumeUp",
            ) || eq_lit(kv, "AudioVolumeMute") {
                let mut m = string_of("unsupported key in accelerator: ");
                push_str(&mut m, k.as_str());
                push_str(&mut m, " (not currently supported by Tauri hotkey handling on Linux)");
                Err(m)
            } else {
                Ok(k)
            }
        },
    }
}


pub struct ChordExec {
    pub ctrl: bool,
    pub alt: bool,
    pub shift: bool,
    pub meta: bool,
    pub key: Option<String>,
}

pub open spec fn chord_view(c: ChordExec) -> Chord {
    Chord {
        ctrl: c.ctrl,
        alt: c.alt,
        shift: c.shift,
        meta: c.meta,
        key: match c.key {
            Some(k) => Some(k@),
            None => None,
        },
    }
}

fn apply_part(c: ChordExec, raw: &[char], value: &str) -> (r: Result<ChordExec, String>)
    ensures
        match r {
            Ok(c2) => part_spec(chord_view(c), raw@, value@) == Ok::<Chord, Seq<char>>(chord_view(c2)),
            Err(e) => part_spec(chord_view(c), raw@, value@) == Err::<Chord, Seq<char>>(e@),
        },
{
    let p = trim_chars(raw);
    if p.len() == 0 {
        return Err(joined("invalid accelerator: ", chars_of(value).as_slice()));
    }
    let l = ascii_lower_vec(p.as_slice());
    let lv = l.as_slice();
    if eq_lit(lv, "ctrl") || eq_lit(lv, "control") {
        Ok(ChordExec { ctrl: true, ..c })
    } else if eq_lit(lv, "alt") || eq_lit(lv, "option") {
        Ok(ChordExec { alt: true, ..c })
    } else if eq_lit(lv, "shift") {
        Ok(ChordExec { shift: true, ..c })
    } else if eq_lit(lv, "meta") || eq_lit(lv, "cmd") || eq_lit(lv, "command") || eq_lit(lv, "super") {
        Ok(ChordExec { meta: true, ..c })
    } else if c.key.is_some() {
        Err(joined("accelerator must contain exactly one key: ", chars_of(value).as_slice()))
    } else {
        let k = normalize_key(p.as_slice())?;
        Ok(ChordExec { key: Some(k), ..c })
    }
}

pub fn normalize_accelerator(value: &str) -> (r: Result<String, String>)
    ensures
        match r {
            Ok(a) => accelerator_spec(value@) == Ok::<Seq<char>, Seq<char>>(a@),
            Err(e) => accelerator_spec(value@) == Err::<Seq<char>, Seq<char>>(e@),
        },
{
    let v = chars_of(value);
    let t = trim_chars(v.as_slice());
    if t.len() == 0 {
        return Ok(String::new());
    }
    let parts = split_chars(t.as_slice(), '+');
    let ghost ps = split_on(t@, '+');
    let mut c = ChordExec { ctrl: false, alt: false, shift: false, meta: false, key: None };
    let mut i: usize = 0;
    assert(ps.take(0) =~= Seq::<Seq<char>>::empty());
    while i < parts.len()
        invariant
            i <= parts@.len() == ps.len(),
            ps == split_on(t@, '+'),
            t@ == trim(value@),
            t@.len() > 0,
            forall|j: int| 0 <= j < parts@.len() ==> (#[trigger] parts@[j])@ == ps[j],
            parts_spec(ps.take(i as int), value@) == Ok::<Chord, Seq<char>>(chord_view(c)),
        decreases parts.len() - i,
    {
        assert(ps.take(i + 1).drop_last() =~= ps.take(i as int));
        match apply_part(c, parts[i].as_slice(), value) {
            Ok(c2) => c = c2,
            Err(e) => {
                proof {
                    lemma_parts_stuck(ps, value@, i + 1);
                }
                assert(ps.take(ps.len() as int) =~= ps);
                return Err(e);
            },
        }
        i += 1;
    }
    assert(ps.take(ps.len() as int) =~= ps);
    let key = match c.key {
        Some(k) => k,
        None => {
            return Err(joined("accelerator is missing a key: ", v.as_slice()));
        },
    };
    let mut out = String::new();
    if c.ctrl {
        push_str(&mut out, "Ctrl+");
    }
    if c.alt {
        push_str(&mut out, "Alt+");
    }
    if c.shift {
        push_str(&mut out, "Shift+");
    }
    if c.meta {
        push_str(&mut out, "Meta+");
    }
    push_str(&mut out, key.as_str());
    proof {
        reveal_strlit("Ctrl+");
        reveal_strlit("Alt+");
        reveal_strlit("Shift+");
        reveal_strlit("Meta+");
        reveal_strlit("Ctrl");
        reveal_strlit("Alt");
        reveal_strlit("Shift");
        reveal_strlit("Meta");
        reveal_strlit("+");
    }
    assert(out@ =~= mod_text(c.ctrl, "Ctrl"@) + mod_text(c.alt, "Alt"@) + mod_text(c.shift, "Shift"@)
        + mod_text(c.meta, "Meta"@) + key@);
    Ok(out)
}

/// Once some parts fail, the whole accelerator fails with the same error.
proof fn lemma_parts_stuck(ps: Seq<Seq<char>>, value: Seq<char>, m: int)
    requires
        0 <= m <= ps.len(),
        parts_spec(ps.take(m), value) is Err,
    ensures
        parts_spec(ps, value) == parts_spec(ps.take(m), value),
    decreases ps.len() - m,
{
    if m < ps.len() {
        assert(ps.take(m + 1).drop_last() =~= ps.take(m));
        lemma_parts_stuck(ps, value, m + 1);
    } else {
        assert(ps.take(m) =~= ps);
    }
}


pub open spec fn scope_of(s: Seq<char>) -> Option<KeyboardScope> {
    if s == "global"@ {
        Some(KeyboardScope::Global)
    } else if s == "search_edit"@ {
        Some(KeyboardScope::SearchEdit)
    } else if s == "result_list"@ {
        Some(KeyboardScope::ResultList)
    } else {
        None
    }
}

pub open spec fn scope_name(sc: KeyboardScope) -> Seq<char> {
    match sc {
        KeyboardScope::Global => "global"@,
        KeyboardScope::SearchEdit => "search_edit"@,
        KeyboardScope::ResultList => "result_list"@,
    }
}

pub open spec fn scope_label(s: Seq<char>) -> Seq<char> {
    if s == "global"@ {
        "Global"@
    } else if s == "search_edit"@ {
        "Search Edit"@
    } else if s == "result_list"@ {
        "Result List"@
    } else {
        "Unknown Scope"@
    }
}

/// Two shortcuts on the same keys clash when either is global or both have the same scope.
pub open spec fn scopes_conflict(a: Seq<char>, b: Seq<char>) -> bool {
    a == "global"@ || b == "global"@ || a == b
}

/// A shortcut with its scope and accelerator in their one spelling.
pub open spec fn shortcut_spec(sp: ShortcutPayloadView) -> Result<ShortcutPayloadView, Seq<char>> {
    match scope_of(sp.scope) {
        None => Err("unknown keyboard scope: "@ + sp.scope),
        Some(sc) => match accelerator_spec(sp.accelerator) {
            Err(e) => Err(e),
            Ok(a) => if trim(sp.command_id).len() == 0 {
                Err("command shortcut is missing command_id"@)
            } else if a.len() == 0 {
                Err("command shortcut for "@ + sp.command_id + " is missing an accelerator"@)
            } else {
                Ok(ShortcutPayloadView { command_id: sp.command_id, scope: scope_name(sc), accelerator: a })
            },
        },
    }
}

pub open spec fn shortcuts_spec(v: Seq<ShortcutPayloadView>) -> Result<Seq<ShortcutPayloadView>, Seq<char>>
    decreases v.len(),
{
    if v.len() == 0 {
        Ok(Seq::empty())
    } else {
        match shortcuts_spec(v.drop_last()) {
            Err(e) => Err(e),
            Ok(w) => match shortcut_spec(v.last()) {
                Err(e) => Err(e),
                Ok(x) => Ok(w.push(x)),
            },
        }
    }
}

/// The first of the shortcuts before `j` that `v[i]` clashes with.
pub open spec fn clash_before(v: Seq<ShortcutPayloadView>, i: int, j: int) -> Option<int>
    decreases j,
{
    if j <= 0 {
        None
    } else {
        match clash_before(v, i, j - 1) {
            Some(k) => Some(k),
            None => if v[j - 1].accelerator == v[i].accelerator && scopes_conflict(
                v[j - 1].scope,
                v[i].scope,
            ) {
                Some(j - 1)
            } else {
                None
            },
        }
    }
}

pub open spec fn clash_message(s: ShortcutPayloadView, e: ShortcutPayloadView) -> Seq<char> {
    "shortcut conflict: "@ + s.accelerator + " for "@ + s.command_id + " ("@ + scope_label(s.scope)
        + ") is already used by "@ + e.command_id + " ("@ + scope_label(e.scope) + ")"@
}

/// The message for the first of the first `n` shortcuts that clashes with an earlier one.
pub open spec fn clash_error(v: Seq<ShortcutPayloadView>, n: int) -> Option<Seq<char>>
    decreases n,
{
    if n <= 0 {
        None
    } else {
        match clash_error(v, n - 1) {
            Some(e) => Some(e),
            None => match clash_before(v, n - 1, n - 1) {
                None => None,
                Some(k) => Some(clash_message(v[n - 1], v[k])),
            },
        }
    }
}

pub open spec fn hotkey_message(a: Seq<char>, name: Seq<char>) -> Seq<char> {
    "window hotkey conflict: "@ + a + " is already used by "@ + name
}

/// Two window hotkeys on the same keys.
pub open spec fn hotkey_error(a1: Seq<char>, a2: Seq<char>, a3: Seq<char>) -> Option<Seq<char>> {
    if a2.len() > 0 && a2 == a1 {
        Some(hotkey_message(a2, "New window hotkey"@))
    } else if a3.len() > 0 && a3 == a1 {
        Some(hotkey_message(a3, "New window hotkey"@))
    } else if a3.len() > 0 && a3 == a2 {
        Some(hotkey_message(a3, "Show window hotkey"@))
    } else {
        None
    }
}

/// The settings in their one spelling, or why they are refused.
pub open spec fn validate_spec(p: SettingsView) -> Result<SettingsView, Seq<char>> {
    match accelerator_spec(p.new_window_hotkey) {
        Err(e) => Err(e),
        Ok(a1) => match accelerator_spec(p.show_window_hotkey) {
            Err(e) => Err(e),
            Ok(a2) => match accelerator_spec(p.toggle_window_hotkey) {
                Err(e) => Err(e),
                Ok(a3) => match shortcuts_spec(p.command_shortcuts) {
                    Err(e) => Err(e),
                    Ok(v) => match clash_error(v, v.len() as int) {
                        Some(e) => Err(e),
                        None => match hotkey_error(a1, a2, a3) {
                            Some(e) => Err(e),
                            None => Ok(
                                SettingsView {
                                    new_window_hotkey: a1,
                                    show_window_hotkey: a2,
                                    toggle_window_hotkey: a3,
                                    command_shortcuts: v,
                                },
                            ),
                        },
                    },
                },
            },
        },
    }
}

fn parse_scope(s: &str) -> (r: Option<KeyboardScope>)
    ensures
        r == scope_of(s@),
{
    let c = chars_of(s);
    if eq_lit(c.as_slice(), "global") {
        Some(KeyboardScope::Global)
    } else if eq_lit(c.as_slice(), "search_edit") {
        Some(KeyboardScope::SearchEdit)
    } else if eq_lit(c.as_slice(), "result_list") {
        Some(KeyboardScope::ResultList)
    } else {
        None
    }
}

fn scope_name_exec(sc: KeyboardScope) -> (r: &'static str)
    ensures
        r@ == scope_name(sc),
{
    match sc {
        KeyboardScope::Global => "global",
        KeyboardScope::SearchEdit => "search_edit",
        KeyboardScope::ResultList => "result_list",
    }
}

fn scope_label_exec(s: &str) -> (r: &'static str)
    ensures
        r@ == scope_label(s@),
{
    let c = chars_of(s);
    if eq_lit(c.as_slice(), "global") {
        "Global"
    } else if eq_lit(c.as_slice(), "search_edit") {
        "Search Edit"
    } else if eq_lit(c.as_slice(), "result_list") {
        "Result List"
    } else {
        "Unknown Scope"
    }
}

fn normalize_shortcut(sp: &KeyboardShortcutPayload) -> (r: Result<KeyboardShortcutPayload, String>)
    ensures
        match r {
            Ok(x) => shortcut_spec(sp@) == Ok::<ShortcutPayloadView, Seq<char>>(x@),
            Err(e) => shortcut_spec(sp@) == Err::<ShortcutPayloadView, Seq<char>>(e@),
        },
{
    let sc = match parse_scope(sp.scope.as_str()) {
        Some(sc) => sc,
        None => {
            return Err(joined("unknown keyboard scope: ", chars_of(sp.scope.as_str()).as_slice()));
        },
    };
    let a = normalize_accelerator(sp.accelerator.as_str())?;
    if trim_chars(chars_of(sp.command_id.as_str()).as_slice()).len() == 0 {
        return Err(string_of("command shortcut is missing command_id"));
    }
    if a.as_str().unicode_len() == 0 {
        let mut m = string_of("command shortcut for ");
        push_str(&mut m, sp.command_id.as_str());
        push_str(&mut m, " is missing an accelerator");
        return Err(m);
    }
    Ok(
        KeyboardShortcutPayload {
            command_id: sp.command_id.clone(),
            scope: string_of(scope_name_exec(sc)),
            accelerator: a,
        },
    )
}

fn same_text(a: &String, b: &String) -> (r: bool)
    ensures
        r == (a@ == b@),
{
    crate::text::str_eq(a.as_str(), b.as_str())
}

fn clash_before_exec(v: &Vec<KeyboardShortcutPayload>, i: usize) -> (r: Option<usize>)
    requires
        i < v@.len(),
    ensures
        match r {
            Some(k) => clash_before(payloads_view(v@), i as int, i as int) == Some(k as int),
            None => clash_before(payloads_view(v@), i as int, i as int) is None,
        },
{
    let ghost pv = payloads_view(v@);
    let mut j: usize = 0;
    while j < i
        invariant
            j <= i < v@.len(),
            pv == payloads_view(v@),
            clash_before(pv, i as int, j as int) is None,
        decreases i - j,
    {
        let gi = crate::text::str_eq(v[j].scope.as_str(), "global");
        let gk = crate::text::str_eq(v[i].scope.as_str(), "global");
        if same_text(&v[j].accelerator, &v[i].accelerator) && (gi || gk || same_text(&v[j].scope, &v[i].scope)) {
            proof {
                lemma_clash_before_stays(pv, i as int, (j + 1) as int, i as int);
            }
            return Some(j);
        }
        j += 1;
    }
    None
}

/// Once a clash is found among the first `m` shortcuts, it is the one found among more.
proof fn lemma_clash_before_stays(v: Seq<ShortcutPayloadView>, i: int, m: int, n: int)
    requires
        0 <= m <= n,
        clash_before(v, i, m) is Some,
    ensures
        clash_before(v, i, n) == clash_before(v, i, m),
    decreases n - m,
{
    if m < n {
        lemma_clash_before_stays(v, i, m, n - 1);
    }
}

proof fn lemma_clash_before_range(v: Seq<ShortcutPayloadView>, i: int, j: int)
    ensures
        clash_before(v, i, j) matches Some(k) ==> 0 <= k < j,
    decreases j,
{
    if j > 0 {
        lemma_clash_before_range(v, i, j - 1);
    }
}

fn clash_check(v: &Vec<KeyboardShortcutPayload>) -> (r: Option<String>)
    ensures
        match r {
            Some(e) => clash_error(payloads_view(v@), v@.len() as int) == Some(e@),
            None => clash_error(payloads_view(v@), v@.len() as int) is None,
        },
{
    let ghost pv = payloads_view(v@);
    let mut i: usize = 0;
    while i < v.len()
        invariant
            i <= v@.len(),
            pv == payloads_view(v@),
            clash_error(pv, i as int) is None,
        decreases v.len() - i,
    {
        proof {
            lemma_clash_before_range(pv, i as int, i as int);
        }
        match clash_before_exec(v, i) {
            Some(k) => {
                let s = &v[i];
                let e = &v[k];
                let mut m = string_of("shortcut conflict: ");
                push_str(&mut m, s.accelerator.as_str());
                push_str(&mut m, " for ");
                push_str(&mut m, s.command_id.as_str());
                push_str(&mut m, " (");
                push_str(&mut m, scope_label_exec(s.scope.as_str()));
                push_str(&mut m, ") is already used by ");
                push_str(&mut m, e.command_id.as_str());
                push_str(&mut m, " (");
                push_str(&mut m, scope_label_exec(e.scope.as_str()));
                push_str(&mut m, ")");
                assert(m@ =~= clash_message(pv[i as int], pv[k as int]));
                proof {
                    lemma_clash_error_stays(pv, (i + 1) as int, v@.len() as int);
                }
                return Some(m);
            },
            None => {},
        }
        i += 1;
    }
    None
}

proof fn lemma_clash_error_stays(v: Seq<ShortcutPayloadView>, m: int, n: int)
    requires
        0 <= m <= n,
        clash_error(v, m) is Some,
    ensures
        clash_error(v, n) == clash_error(v, m),
    decreases n - m,
{
    if m < n {
        lemma_clash_error_stays(v, m, n - 1);
    }
}

fn hotkey_check(a1: &String, a2: &String, a3: &String) -> (r: Option<String>)
    ensures
        r matches Some(e) ==> hotkey_error(a1@, a2@, a3@) == Some(e@),
        r is None ==> hotkey_error(a1@, a2@, a3@) is None,
{
    let l2 = a2.as_str().unicode_len();
    let l3 = a3.as_str().unicode_len();
    let (a, name) = if l2 > 0 && same_text(a2, a1) {
        (a2, "New window hotkey")
    } else if l3 > 0 && same_text(a3, a1) {
        (a3, "New window hotkey")
    } else if l3 > 0 && same_text(a3, a2) {
        (a3, "Show window hotkey")
    } else {
        return None;
    };
    let mut m = string_of("window hotkey conflict: ");
    push_str(&mut m, a.as_str());
    push_str(&mut m, " is already used by ");
    push_str(&mut m, name);
    Some(m)
}

pub fn normalize_and_validate(payload: KeyboardSettingsPayload) -> (r: Result<
    KeyboardSettingsPayload,
    String,
>)
    ensures
        match r {
            Ok(p) => validate_spec(payload@) == Ok::<SettingsView, Seq<char>>(p@),
            Err(e) => validate_spec(payload@) == Err::<SettingsView, Seq<char>>(e@),
        },
{
    let a1 = normalize_accelerator(payload.new_window_hotkey.as_str())?;
    let a2 = normalize_accelerator(payload.show_window_hotkey.as_str())?;
    let a3 = normalize_accelerator(payload.toggle_window_hotkey.as_str())?;
    let ghost pv = payloads_view(payload.command_shortcuts@);
    let mut out: Vec<KeyboardShortcutPayload> = Vec::new();
    let mut i: usize = 0;
    assert(pv.take(0) =~= Seq::<ShortcutPayloadView>::empty());
    assert(payloads_view(out@) =~= Seq::<ShortcutPayloadView>::empty());
    while i < payload.command_shortcuts.len()
        invariant
            i <= payload.command_shortcuts@.len(),
            pv == payloads_view(payload.command_shortcuts@),
            accelerator_spec(payload@.new_window_hotkey) == Ok::<Seq<char>, Seq<char>>(a1@),
            accelerator_spec(payload@.show_window_hotkey) == Ok::<Seq<char>, Seq<char>>(a2@),
            accelerator_spec(payload@.toggle_window_hotkey) == Ok::<Seq<char>, Seq<char>>(a3@),
            shortcuts_spec(pv.take(i as int)) == Ok::<Seq<ShortcutPayloadView>, Seq<char>>(
                payloads_view(out@),
            ),
        decreases payload.command_shortcuts.len() - i,
    {
        assert(pv.take(i + 1).drop_last() =~= pv.take(i as int));
        assert(pv.take(i + 1).last() == payload.command_shortcuts@[i as int]@);
        match normalize_shortcut(&payload.command_shortcuts[i]) {
            Ok(x) => {
                let ghost before = payloads_view(out@);
                out.push(x);
                assert(payloads_view(out@) =~= before.push(x@));
            },
            Err(e) => {
                proof {
                    lemma_shortcuts_stuck(pv, (i + 1) as int);
                }
                assert(pv.take(pv.len() as int) =~= pv);
                return Err(e);
            },
        }
        i += 1;
    }
    assert(pv.take(pv.len() as int) =~= pv);
    match clash_check(&out) {
        Some(e) => {
            return Err(e);
        },
        None => {},
    }
    match hotkey_check(&a1, &a2, &a3) {
        Some(e) => {
            return Err(e);
        },
        None => {},
    }
    Ok(
        KeyboardSettingsPayload {
            new_window_hotkey: a1,
            show_window_hotkey: a2,
            toggle_window_hotkey: a3,
            command_shortcuts: out,
        },
    )
}

proof fn lemma_shortcuts_stuck(v: Seq<ShortcutPayloadView>, m: int)
    requires
        0 <= m <= v.len(),
        shortcuts_spec(v.take(m)) is Err,
    ensures
        shortcuts_spec(v) == shortcuts_spec(v.take(m)),
    decreases v.len() - m,
{
    if m < v.len() {
        assert(v.take(m + 1).drop_last() =~= v.take(m));
        lemma_shortcuts_stuck(v, m + 1);
    } else {
        assert(v.take(m) =~= v);
    }
}


pub open spec fn entry(c: Seq<char>, s: Seq<char>, a: Seq<char>) -> ShortcutPayloadView {
    ShortcutPayloadView { command_id: c, scope: s, accelerator: a }
}

/// `Ctrl+N` for a new window, no other window hotkey, and the standard command shortcuts.
pub open spec fn default_settings() -> SettingsView {
    SettingsView {
        new_window_hotkey: "Ctrl+N"@,
        show_window_hotkey: Seq::empty(),
        toggle_window_hotkey: Seq::empty(),
        command_shortcuts: seq![
            entry("search.execute"@, "search_edit"@, "Enter"@),
            entry("search.clear"@, "search_edit"@, "Escape"@),
            entry("results.select_next"@, "global"@, "ArrowDown"@),
            entry("results.select_previous"@, "global"@, "ArrowUp"@),
            entry("results.open"@, "result_list"@, "Enter"@),
            entry("results.copy_path"@, "global"@, "Ctrl+C"@),
            entry("results.trash"@, "global"@, "Delete"@),
            entry("results.delete_permanently"@, "global"@, "Shift+Delete"@),
            entry("window.open_diagnostics"@, "global"@, "Ctrl+Period"@),
            entry("window.open_options"@, "global"@, "Ctrl+Comma"@),
        ],
    }
}

fn shortcut(command_id: &str, scope: &str, accelerator: &str) -> (r: KeyboardShortcutPayload)
    ensures
        r@ == entry(command_id@, scope@, accelerator@),
{
    KeyboardShortcutPayload {
        command_id: string_of(command_id),
        scope: string_of(scope),
        accelerator: string_of(accelerator),
    }
}

pub fn default_keyboard_settings() -> (r: KeyboardSettingsPayload)
    ensures
        r@ == default_settings(),
{
    let v = vec![
        shortcut("search.execute", "search_edit", "Enter"),
        shortcut("search.clear", "search_edit", "Escape"),
        shortcut("results.select_next", "global", "ArrowDown"),
        shortcut("results.select_previous", "global", "ArrowUp"),
        shortcut("results.open", "result_list", "Enter"),
        shortcut("results.copy_path", "global", "Ctrl+C"),
        shortcut("results.trash", "global", "Delete"),
        shortcut("results.delete_permanently", "global", "Shift+Delete"),
        shortcut("window.open_diagnostics", "global", "Ctrl+Period"),
        shortcut("window.open_options", "global", "Ctrl+Comma"),
    ];
    let r = KeyboardSettingsPayload {
        new_window_hotkey: string_of("Ctrl+N"),
        show_window_hotkey: String::new(),
        toggle_window_hotkey: String::new(),
        command_shortcuts: v,
    };
    assert(r@.command_shortcuts =~= default_settings().command_shortcuts);
    assert(r@.show_window_hotkey =~= Seq::<char>::empty());
    assert(r@.toggle_window_hotkey =~= Seq::<char>::empty());
    r
}

pub open spec fn payload_of(s: ShortcutView) -> ShortcutPayloadView {
    ShortcutPayloadView { command_id: s.command_id, scope: scope_name(s.scope), accelerator: s.accelerator }
}

/// The settings that the settings window shows for the stored keyboard settings: the defaults
/// where nothing is stored, the default shortcuts where no shortcut is stored.
pub open spec fn settings_of(k: KeyboardView) -> SettingsView {
    let p = SettingsView {
        new_window_hotkey: k.new_window_hotkey,
        show_window_hotkey: k.show_window_hotkey,
        toggle_window_hotkey: k.toggle_window_hotkey,
        command_shortcuts: k.command_shortcuts.map_values(|s: ShortcutView| payload_of(s)),
    };
    if k.new_window_hotkey.len() == 0 && k.show_window_hotkey.len() == 0
        && k.toggle_window_hotkey.len() == 0 && k.command_shortcuts.len() == 0 {
        default_settings()
    } else if k.command_shortcuts.len() == 0 {
        SettingsView { command_shortcuts: default_settings().command_shortcuts, ..p }
    } else {
        p
    }
}

pub fn settings_from_config(config: &Config) -> (r: KeyboardSettingsPayload)
    ensures
        r@ == settings_of(config@.keyboard),
{
    let k = &config.keyboard;
    let ghost kv = k@;
    let mut shortcuts: Vec<KeyboardShortcutPayload> = Vec::new();
    let mut i: usize = 0;
    while i < k.command_shortcuts.len()
        invariant
            i <= k.command_shortcuts@.len(),
            kv == k@,
            payloads_view(shortcuts@) == kv.command_shortcuts.take(i as int).map_values(
                |s: ShortcutView| payload_of(s),
            ),
        decreases k.command_shortcuts.len() - i,
    {
        let s = &k.command_shortcuts[i];
        let ghost before = payloads_view(shortcuts@);
        let x = KeyboardShortcutPayload {
            command_id: s.command_id.clone(),
            scope: string_of(scope_name_exec(s.scope)),
            accelerator: s.accelerator.clone(),
        };
        shortcuts.push(x);
        assert(kv.command_shortcuts[i as int] == s@);
        assert(x@ == payload_of(s@));
        assert(payloads_view(shortcuts@) =~= before.push(x@));
        assert(kv.command_shortcuts.take(i + 1).map_values(|s: ShortcutView| payload_of(s))
            =~= kv.command_shortcuts.take(i as int).map_values(|s: ShortcutView| payload_of(s)).push(
            payload_of(s@),
        ));
        assert(payloads_view(shortcuts@) =~= kv.command_shortcuts.take(i + 1).map_values(
            |s: ShortcutView| payload_of(s),
        ));
        i += 1;
    }
    assert(kv.command_shortcuts.take(kv.command_shortcuts.len() as int) =~= kv.command_shortcuts);
    let n1 = k.new_window_hotkey.as_str().unicode_len();
    let n2 = k.show_window_hotkey.as_str().unicode_len();
    let n3 = k.toggle_window_hotkey.as_str().unicode_len();
    if n1 == 0 && n2 == 0 && n3 == 0 && shortcuts.len() == 0 {
        default_keyboard_settings()
    } else if shortcuts.len() == 0 {
        KeyboardSettingsPayload {
            new_window_hotkey: k.new_window_hotkey.clone(),
            show_window_hotkey: k.show_window_hotkey.clone(),
            toggle_window_hotkey: k.toggle_window_hotkey.clone(),
            command_shortcuts: default_keyboard_settings().command_shortcuts,
        }
    } else {
        KeyboardSettingsPayload {
            new_window_hotkey: k.new_window_hotkey.clone(),
            show_window_hotkey: k.show_window_hotkey.clone(),
            toggle_window_hotkey: k.toggle_window_hotkey.clone(),
            command_shortcuts: shortcuts,
        }
    }
}

/// The stored form of the shortcuts: each scope read back from its name.
pub open spec fn stored_shortcuts(v: Seq<ShortcutPayloadView>) -> Result<Seq<ShortcutView>, Seq<char>>
    decreases v.len(),
{
    if v.len() == 0 {
        Ok(Seq::empty())
    } else {
        match stored_shortcuts(v.drop_last()) {
            Err(e) => Err(e),
            Ok(w) => match scope_of(v.last().scope) {
                None => Err("unknown keyboard scope: "@ + v.last().scope),
                Some(sc) => Ok(
                    w.push(
                        ShortcutView {
                            command_id: v.last().command_id,
                            scope: sc,
                            accelerator: v.last().accelerator,
                        },
                    ),
                ),
            },
        }
    }
}

/// What applying keyboard settings gives: the settings in their one spelling and the keyboard
/// settings to store, or why they are refused.
pub open spec fn apply_spec(p: SettingsView) -> Result<(SettingsView, KeyboardView), Seq<char>> {
    match validate_spec(p) {
        Err(e) => Err(e),
        Ok(n) => match stored_shortcuts(n.command_shortcuts) {
            Err(e) => Err(e),
            Ok(v) => Ok(
                (
                    n,
                    KeyboardView {
                        new_window_hotkey: n.new_window_hotkey,
                        show_window_hotkey: n.show_window_hotkey,
                        toggle_window_hotkey: n.toggle_window_hotkey,
                        command_shortcuts: v,
                    },
                ),
            ),
        },
    }
}

proof fn lemma_stored_stuck(v: Seq<ShortcutPayloadView>, m: int)
    requires
        0 <= m <= v.len(),
        stored_shortcuts(v.take(m)) is Err,
    ensures
        stored_shortcuts(v) == stored_shortcuts(v.take(m)),
    decreases v.len() - m,
{
    if m < v.len() {
        assert(v.take(m + 1).drop_last() =~= v.take(m));
        lemma_stored_stuck(v, m + 1);
    } else {
        assert(v.take(m) =~= v);
    }
}

fn stored_of(v: &Vec<KeyboardShortcutPayload>) -> (r: Result<Vec<KeyboardShortcutConfig>, String>)
    ensures
        match r {
            Ok(w) => stored_shortcuts(payloads_view(v@)) == Ok::<Seq<ShortcutView>, Seq<char>>(
                shortcuts_view(w@),
            ),
            Err(e) => stored_shortcuts(payloads_view(v@)) == Err::<Seq<ShortcutView>, Seq<char>>(e@),
        },
{
    let ghost pv = payloads_view(v@);
    let mut out: Vec<KeyboardShortcutConfig> = Vec::new();
    let mut i: usize = 0;
    assert(pv.take(0) =~= Seq::<ShortcutPayloadView>::empty());
    assert(shortcuts_view(out@) =~= Seq::<ShortcutView>::empty());
    while i < v.len()
        invariant
            i <= v@.len(),
            pv == payloads_view(v@),
            stored_shortcuts(pv.take(i as int)) == Ok::<Seq<ShortcutView>, Seq<char>>(
                shortcuts_view(out@),
            ),
        decreases v.len() - i,
    {
        assert(pv.take(i + 1).drop_last() =~= pv.take(i as int));
        assert(pv.take(i + 1).last() == v@[i as int]@);
        match parse_scope(v[i].scope.as_str()) {
            Some(sc) => {
                let ghost before = shortcuts_view(out@);
                let x = KeyboardShortcutConfig {
                    command_id: v[i].command_id.clone(),
                    scope: sc,
                    accelerator: v[i].accelerator.clone(),
                };
                out.push(x);
                assert(shortcuts_view(out@) =~= before.push(x@));
            },
            None => {
                proof {
                    lemma_stored_stuck(pv, (i + 1) as int);
                }
                return Err(joined("unknown keyboard scope: ", chars_of(v[i].scope.as_str()).as_slice()));
            },
        }
        i += 1;
    }
    assert(pv.take(pv.len() as int) =~= pv);
    Ok(out)
}

pub fn apply_settings_to_config(config: &mut Config, payload: KeyboardSettingsPayload) -> (r: Result<
    KeyboardSettingsPayload,
    String,
>)
    ensures
        match r {
            Ok(n) => apply_spec(payload@) matches Ok((nv, kv)) && n@ == nv && final(config)@ == (ConfigView {
                keyboard: kv,
                ..old(config)@
            }),
            Err(e) => apply_spec(payload@) == Err::<(SettingsView, KeyboardView), Seq<char>>(e@)
                && final(config)@ == old(config)@,
        },
{
    let normalized = normalize_and_validate(payload)?;
    let stored = stored_of(&normalized.command_shortcuts)?;
    config.keyboard = KeyboardConfig {
        new_window_hotkey: normalized.new_window_hotkey.clone(),
        show_window_hotkey: normalized.show_window_hotkey.clone(),
        toggle_window_hotkey: normalized.toggle_window_hotkey.clone(),
        command_shortcuts: stored,
    };
    Ok(normalized)
}

/// Each scope's name reads back as that scope.
proof fn lemma_scope_name_of(sc: KeyboardScope)
    ensures
        scope_of(scope_name(sc)) == Some(sc),
{
    reveal_strlit("global");
    reveal_strlit("search_edit");
    reveal_strlit("result_list");
    assert("global"@ != "search_edit"@ && "global"@ != "result_list"@ && "search_edit"@ != "result_list"@) by {
        assert("global"@[0] != "search_edit"@[0]);
        assert("global"@[0] != "result_list"@[0]);
        assert("search_edit"@[0] != "result_list"@[0]);
    }
}

/// Validated shortcuts carry the name of a scope.
proof fn lemma_validated_scopes(v: Seq<ShortcutPayloadView>)
    requires
        shortcuts_spec(v) is Ok,
    ensures
        forall|i: int| 0 <= i < shortcuts_spec(v)->Ok_0.len() ==> exists|sc: KeyboardScope|
            #[trigger] shortcuts_spec(v)->Ok_0[i].scope == scope_name(sc),
        shortcuts_spec(v)->Ok_0.len() == v.len(),
    decreases v.len(),
{
    if v.len() > 0 {
        lemma_validated_scopes(v.drop_last());
        let w = shortcuts_spec(v.drop_last())->Ok_0;
        let x = shortcut_spec(v.last())->Ok_0;
        let sc = scope_of(v.last().scope)->Some_0;
        assert(x.scope == scope_name(sc));
        assert forall|i: int| 0 <= i < w.push(x).len() implies exists|s: KeyboardScope|
            #[trigger] w.push(x)[i].scope == scope_name(s) by {
            if i < w.len() {
                assert(w.push(x)[i] == w[i]);
            } else {
                assert(w.push(x)[i].scope == scope_name(sc));
            }
        }
    }
}

/// Shortcuts that carry scope names are stored, and read back as themselves.
proof fn lemma_stored_reads_back(w: Seq<ShortcutPayloadView>)
    requires
        forall|i: int| 0 <= i < w.len() ==> exists|sc: KeyboardScope| #[trigger] w[i].scope == scope_name(sc),
    ensures
        stored_shortcuts(w) is Ok,
        stored_shortcuts(w)->Ok_0.map_values(|s: ShortcutView| payload_of(s)) == w,
    decreases w.len(),
{
    if w.len() > 0 {
        assert forall|i: int| 0 <= i < w.drop_last().len() implies exists|sc: KeyboardScope|
            #[trigger] w.drop_last()[i].scope == scope_name(sc) by {
            assert(w.drop_last()[i] == w[i]);
            assert(exists|sc: KeyboardScope| #[trigger] w[i].scope == scope_name(sc));
        }
        lemma_stored_reads_back(w.drop_last());
        let last = w.last();
        assert(exists|sc: KeyboardScope| #[trigger] w[w.len() - 1].scope == scope_name(sc));
        let sc = choose|sc: KeyboardScope| w[w.len() - 1].scope == scope_name(sc);
        lemma_scope_name_of(sc);
        let u = stored_shortcuts(w.drop_last())->Ok_0;
        let y = ShortcutView { command_id: last.command_id, scope: sc, accelerator: last.accelerator };
        assert(stored_shortcuts(w) == Ok::<Seq<ShortcutView>, Seq<char>>(u.push(y)));
        assert(u.push(y).map_values(|s: ShortcutView| payload_of(s)) =~= w) by {
            assert(u.map_values(|s: ShortcutView| payload_of(s)) == w.drop_last());
            assert forall|i: int| 0 <= i < w.len() implies u.push(y).map_values(
                |s: ShortcutView| payload_of(s),
            )[i] == w[i] by {
                if i < w.len() - 1 {
                    assert(u.push(y)[i] == u[i]);
                    assert(u.map_values(|s: ShortcutView| payload_of(s))[i] == w.drop_last()[i]);
                }
            }
        }
    }
}

/// Settings that pass validation can always be stored, and the settings read back from what
/// was stored are the normalised settings, wherever they list at least one command shortcut.
pub proof fn law_stored_settings_read_back(p: SettingsView)
    requires
        validate_spec(p) is Ok,
    ensures
        apply_spec(p) is Ok,
        apply_spec(p)->Ok_0.0 == validate_spec(p)->Ok_0,
        validate_spec(p)->Ok_0.command_shortcuts.len() > 0 ==> settings_of(apply_spec(p)->Ok_0.1)
            == validate_spec(p)->Ok_0,
{
    let n = validate_spec(p)->Ok_0;
    lemma_validated_scopes(p.command_shortcuts);
    assert(n.command_shortcuts == shortcuts_spec(p.command_shortcuts)->Ok_0);
    lemma_stored_reads_back(n.command_shortcuts);
    let v = stored_shortcuts(n.command_shortcuts)->Ok_0;
    assert(v.map_values(|s: ShortcutView| payload_of(s)).len() == v.len());
}

/// The names of the keys that are spelled as a word, as `key_name` gives them.
pub open spec fn word_key(k: Seq<char>) -> bool {
    k == "Enter"@ || k == "Escape"@ || k == "ArrowUp"@ || k == "ArrowDown"@ || k == "ArrowLeft"@
        || k == "ArrowRight"@ || k == "Delete"@ || k == "Backspace"@ || k == "Space"@ || k
        == "Period"@ || k == "Comma"@ || k == "Tab"@
}

/// The words that `part_spec` reads as modifiers.
pub open spec fn modifier_word(l: Seq<char>) -> bool {
    l == "ctrl"@ || l == "control"@ || l == "alt"@ || l == "option"@ || l == "shift"@ || l
        == "meta"@ || l == "cmd"@ || l == "command"@ || l == "super"@
}

/// A word-named key, lower-cased, names itself and is no modifier.
proof fn lemma_named_key_reads_back(k: Seq<char>)
    requires
        word_key(k),
    ensures
        key_name(ascii_lower_chars(k)) == Some(k),
        !modifier_word(ascii_lower_chars(k)),
{
    reveal_strlit("ctrl");
    reveal_strlit("control");
    reveal_strlit("alt");
    reveal_strlit("option");
    reveal_strlit("shift");
    reveal_strlit("meta");
    reveal_strlit("cmd");
    reveal_strlit("command");
    reveal_strlit("super");
    reveal_strlit("enter");
    reveal_strlit("return");
    reveal_strlit("escape");
    reveal_strlit("esc");
    reveal_strlit("arrowup");
    reveal_strlit("up");
    reveal_strlit("arrowdown");
    reveal_strlit("down");
    reveal_strlit("arrowleft");
    reveal_strlit("left");
    reveal_strlit("arrowright");
    reveal_strlit("right");
    reveal_strlit("delete");
    reveal_strlit("del");
    reveal_strlit("backspace");
    reveal_strlit("space");
    reveal_strlit("spacebar");
    reveal_strlit("period");
    reveal_strlit(".");
    reveal_strlit("comma");
    reveal_strlit(",");
    reveal_strlit("tab");
    reveal_strlit("Enter");
    reveal_strlit("Escape");
    reveal_strlit("ArrowUp");
    reveal_strlit("ArrowDown");
    reveal_strlit("ArrowLeft");
    reveal_strlit("ArrowRight");
    reveal_strlit("Delete");
    reveal_strlit("Backspace");
    reveal_strlit("Space");
    reveal_strlit("Period");
    reveal_strlit("Comma");
    reveal_strlit("Tab");
    let l = ascii_lower_chars(k);
    if k == "Enter"@ {
        assert(l =~= "enter"@);
        assert(l[0] != "shift"@[0] && l[0] != "super"@[0]);
        assert(key_name(l) == Some(k));
    } else if k == "Escape"@ {
        assert(l =~= "escape"@);
        assert(l[0] != "option"@[0]);
        assert(l[0] != "return"@[0]);
        assert(key_name(l) == Some(k));
    } else if k == "ArrowUp"@ {
        assert(l =~= "arrowup"@);
        assert(l[0] != "control"@[0] && l[0] != "command"@[0]);
        assert(key_name(l) == Some(k));
    } else if k == "ArrowDown"@ {
        assert(l =~= "arrowdown"@);
        assert(key_name(l) == Some(k));
    } else if k == "ArrowLeft"@ {
        assert(l =~= "arrowleft"@);
        assert(l[5] != "arrowdown"@[5]);
        assert(key_name(l) == Some(k));
    } else if k == "ArrowRight"@ {
        assert(l =~= "arrowright"@);
        assert(key_name(l) == Some(k));
    } else if k == "Delete"@ {
        assert(l =~= "delete"@);
        assert(l[0] != "option"@[0]);
        assert(l[0] != "escape"@[0] && l[0] != "return"@[0]);
        assert(key_name(l) == Some(k));
    } else if k == "Backspace"@ {
        assert(l =~= "backspace"@);
        assert(l[0] != "arrowdown"@[0] && l[0] != "arrowleft"@[0]);
        assert(key_name(l) == Some(k));
    } else if k == "Space"@ {
        assert(l =~= "space"@);
        assert(l[1] != "shift"@[1] && l[1] != "super"@[1]);
        assert(l[0] != "right"@[0] && l[0] != "enter"@[0]);
        assert(key_name(l) == Some(k));
    } else if k == "Period"@ {
        assert(l =~= "period"@);
        assert(l[0] != "option"@[0]);
        assert(l[0] != "escape"@[0] && l[0] != "return"@[0] && l[0] != "delete"@[0]);
        assert(key_name(l) == Some(k));
    } else if k == "Comma"@ {
        assert(l =~= "comma"@);
        assert(l[0] != "shift"@[0] && l[0] != "super"@[0]);
        assert(l[0] != "enter"@[0] && l[0] != "right"@[0] && l[0] != "space"@[0]);
        assert(key_name(l) == Some(k));
    } else {
        assert(l =~= "tab"@);
        assert(l[0] != "alt"@[0] && l[0] != "cmd"@[0]);
        assert(l[0] != "esc"@[0] && l[0] != "del"@[0]);
        assert(key_name(l) == Some(k));
    }
}

proof fn lemma_trim_start_shape(s: Seq<char>)
    ensures
        trim_start(s).len() <= s.len(),
        trim_start(s) == s.subrange(s.len() - trim_start(s).len(), s.len() as int),
        trim_start(s).len() > 0 ==> !is_space(trim_start(s)[0]),
    decreases s.len(),
{
    if s.len() > 0 && is_space(s[0]) {
        lemma_trim_start_shape(s.drop_first());
        assert(s.drop_first().subrange(
            s.drop_first().len() - trim_start(s.drop_first()).len(),
            s.drop_first().len() as int,
        ) =~= s.subrange(s.len() - trim_start(s).len(), s.len() as int));
    } else {
        assert(s.subrange(0, s.len() as int) =~= s);
    }
}

proof fn lemma_trim_end_shape(s: Seq<char>)
    ensures
        trim_end(s).len() <= s.len(),
        trim_end(s) == s.subrange(0, trim_end(s).len() as int),
        trim_end(s).len() > 0 ==> !is_space(trim_end(s).last()),
    decreases s.len(),
{
    if s.len() > 0 && is_space(s.last()) {
        lemma_trim_end_shape(s.drop_last());
        assert(s.drop_last().subrange(0, trim_end(s.drop_last()).len() as int) =~= s.subrange(
            0,
            trim_end(s).len() as int,
        ));
    } else {
        assert(s.subrange(0, s.len() as int) =~= s);
    }
}

/// What `trim` leaves is a piece of its argument without white space at either end.
proof fn lemma_trim_shape(s: Seq<char>)
    ensures
        forall|i: int| 0 <= i < trim(s).len() ==> s.contains(#[trigger] trim(s)[i]),
        trim(s).len() > 0 ==> !is_space(trim(s)[0]) && !is_space(trim(s).last()),
{
    let u = trim_start(s);
    lemma_trim_start_shape(s);
    lemma_trim_end_shape(u);
    let t = trim(s);
    let a = s.len() - u.len();
    assert forall|i: int| 0 <= i < t.len() implies s.contains(#[trigger] t[i]) by {
        assert(t[i] == u[i]);
        assert(u[i] == s[a + i]);
    }
    if t.len() > 0 {
        assert(t[0] == u[0]);
    }
}

/// A key that an accelerator part names reads back as itself: lower-cased it names itself, it
/// is no media key, and it is a run without white space at either end and without `+`.
proof fn lemma_key_reads_back(p: Seq<char>)
    requires
        key_spec(p) is Ok,
        forall|i: int| 0 <= i < p.len() ==> p[i] != '+',
    ensures
        ({
            let k = key_spec(p)->Ok_0;
            &&& key_name(ascii_lower_chars(k)) == Some(k)
            &&& !media_key(k)
            &&& k.len() > 0
            &&& !is_space(k[0])
            &&& !is_space(k.last())
            &&& forall|i: int| 0 <= i < k.len() ==> k[i] != '+'
            &&& !modifier_word(ascii_lower_chars(k))
        }),
{
    let k = key_spec(p)->Ok_0;
    reveal_strlit("ctrl");
    reveal_strlit("control");
    reveal_strlit("alt");
    reveal_strlit("option");
    reveal_strlit("shift");
    reveal_strlit("meta");
    reveal_strlit("cmd");
    reveal_strlit("command");
    reveal_strlit("super");
    let t = trim(p);
    let l = ascii_lower_chars(t);
    lemma_trim_shape(p);
    assert(key_name(l) == Some(k));
    reveal_strlit("enter");
    reveal_strlit("return");
    reveal_strlit("escape");
    reveal_strlit("esc");
    reveal_strlit("arrowup");
    reveal_strlit("up");
    reveal_strlit("arrowdown");
    reveal_strlit("down");
    reveal_strlit("arrowleft");
    reveal_strlit("left");
    reveal_strlit("arrowright");
    reveal_strlit("right");
    reveal_strlit("delete");
    reveal_strlit("del");
    reveal_strlit("backspace");
    reveal_strlit("space");
    reveal_strlit("spacebar");
    reveal_strlit("period");
    reveal_strlit(".");
    reveal_strlit("comma");
    reveal_strlit(",");
    reveal_strlit("tab");
    reveal_strlit("Enter");
    reveal_strlit("Escape");
    reveal_strlit("ArrowUp");
    reveal_strlit("ArrowDown");
    reveal_strlit("ArrowLeft");
    reveal_strlit("ArrowRight");
    reveal_strlit("Delete");
    reveal_strlit("Backspace");
    reveal_strlit("Space");
    reveal_strlit("Period");
    reveal_strlit("Comma");
    reveal_strlit("Tab");
    reveal_strlit("F");
    reveal_strlit("MediaTrackPrevious");
    reveal_strlit("MediaTrackNext");
    reveal_strlit("MediaPlayPause");
    reveal_strlit("MediaStop");
    reveal_strlit("AudioVolumeDown");
    reveal_strlit("AudioVolumeUp");
    reveal_strlit("AudioVolumeMute");
    if word_key(k) {
        lemma_named_key_reads_back(k);
    } else if l.len() == 1 && (l[0] as u32) < 128 {
        assert(k == ascii_upper_chars(l));
        assert(t.len() == 1);
        assert(p.contains(t[0]));
        let c = k[0];
        let lk = ascii_lower_chars(k);
        assert(lk.len() == 1);
        assert(ascii_upper_chars(lk) =~= k);
        assert(lk != "."@ && lk != ","@) by {
            if lk == "."@ || lk == ","@ {
                assert(l =~= lk);
            }
        }
        assert(key_name(lk) == Some(k));
    } else {
        assert(!media_key(k));
        assert(l.len() > 0 && l[0] == 'f');
        assert(forall|i: int| 1 <= i < l.len() ==> '0' <= #[trigger] l[i] <= '9');
        assert(k =~= "F"@ + l.drop_first());
        assert(ascii_lower_chars(k) =~= l);
        assert(k.last() == l.last());
        assert(l[0] != "ctrl"@[0] && l[0] != "control"@[0] && l[0] != "alt"@[0] && l[0]
            != "option"@[0] && l[0] != "shift"@[0] && l[0] != "meta"@[0] && l[0] != "cmd"@[0]
            && l[0] != "command"@[0] && l[0] != "super"@[0]);
    }
}

/// The pieces of a split hold no separator.
proof fn lemma_split_pieces(s: Seq<char>, sep: char, cur: Seq<char>)
    requires
        forall|i: int| 0 <= i < cur.len() ==> cur[i] != sep,
    ensures
        forall|j: int, i: int|
            0 <= j < split_after(s, sep, cur).len() && 0 <= i < split_after(s, sep, cur)[j].len()
                ==> #[trigger] split_after(s, sep, cur)[j][i] != sep,
    decreases s.len(),
{
    if s.len() == 0 {
        assert(split_after(s, sep, cur) == seq![cur]);
        assert forall|j: int, i: int|
            0 <= j < split_after(s, sep, cur).len() && 0 <= i < split_after(s, sep, cur)[j].len()
                implies #[trigger] split_after(s, sep, cur)[j][i] != sep by {
            assert(j == 0);
            assert(split_after(s, sep, cur)[j] == cur);
        }
    } else if s[0] == sep {
        lemma_split_pieces(s.drop_first(), sep, Seq::empty());
        let r = split_after(s.drop_first(), sep, Seq::empty());
        assert forall|j: int, i: int|
            0 <= j < split_after(s, sep, cur).len() && 0 <= i < split_after(s, sep, cur)[j].len()
                implies #[trigger] split_after(s, sep, cur)[j][i] != sep by {
            if j > 0 {
                assert(split_after(s, sep, cur)[j] == r[j - 1]);
            } else {
                assert(split_after(s, sep, cur)[j] == cur);
            }
        }
    } else {
        assert forall|i: int| 0 <= i < cur.push(s[0]).len() implies cur.push(s[0])[i] != sep by {
            if i < cur.len() {
                assert(cur.push(s[0])[i] == cur[i]);
            }
        }
        lemma_split_pieces(s.drop_first(), sep, cur.push(s[0]));
        assert(split_after(s, sep, cur) == split_after(s.drop_first(), sep, cur.push(s[0])));
    }
}

/// A run without the separator joins the piece in progress.
proof fn lemma_split_run(x: Seq<char>, rest: Seq<char>, sep: char, cur: Seq<char>)
    requires
        forall|i: int| 0 <= i < x.len() ==> x[i] != sep,
    ensures
        split_after(x + rest, sep, cur) == split_after(rest, sep, cur + x),
    decreases x.len(),
{
    if x.len() == 0 {
        assert(x + rest =~= rest);
        assert(cur + x =~= cur);
    } else {
        assert((x + rest)[0] == x[0]);
        assert((x + rest).drop_first() =~= x.drop_first() + rest);
        lemma_split_run(x.drop_first(), rest, sep, cur.push(x[0]));
        assert(cur.push(x[0]) + x.drop_first() =~= cur + x);
    }
}

/// A modifier written with its `+` splits off as one piece.
proof fn lemma_split_mod(b: bool, name: Seq<char>, rest: Seq<char>)
    requires
        forall|i: int| 0 <= i < name.len() ==> name[i] != '+',
    ensures
        split_after(mod_text(b, name) + rest, '+', Seq::empty()) == (if b {
            seq![name]
        } else {
            Seq::<Seq<char>>::empty()
        }) + split_after(rest, '+', Seq::empty()),
{
    reveal_strlit("+");
    if b {
        assert(mod_text(b, name) + rest =~= name + (seq!['+'] + rest));
        lemma_split_run(name, seq!['+'] + rest, '+', Seq::empty());
        assert((seq!['+'] + rest)[0] == '+');
        assert((seq!['+'] + rest).drop_first() =~= rest);
        assert(Seq::<char>::empty() + name =~= name);
    } else {
        assert(mod_text(b, name) + rest =~= rest);
    }
    assert((if b {
        seq![name]
    } else {
        Seq::<Seq<char>>::empty()
    }) + split_after(rest, '+', Seq::empty()) =~= split_after(mod_text(b, name) + rest, '+', Seq::empty()));
}

/// Where reading the parts gave a key, some part without `+` named it.
proof fn lemma_parts_key(ps: Seq<Seq<char>>, value: Seq<char>)
    requires
        parts_spec(ps, value) is Ok,
        forall|j: int, i: int| 0 <= j < ps.len() && 0 <= i < ps[j].len() ==> #[trigger] ps[j][i] != '+',
    ensures
        parts_spec(ps, value)->Ok_0.key matches Some(k) ==> exists|p: Seq<char>|
            (forall|i: int| 0 <= i < p.len() ==> p[i] != '+') && #[trigger] key_spec(p) == Ok::<
                Seq<char>,
                Seq<char>,
            >(k),
    decreases ps.len(),
{
    if ps.len() > 0 {
        let prev = ps.drop_last();
        assert forall|j: int, i: int| 0 <= j < prev.len() && 0 <= i < prev[j].len() implies #[trigger] prev[j][i]
            != '+' by {
            assert(prev[j] == ps[j]);
        }
        lemma_parts_key(prev, value);
        let c = parts_spec(prev, value)->Ok_0;
        let raw = ps.last();
        let p = trim(raw);
        lemma_trim_shape(raw);
        assert forall|i: int| 0 <= i < p.len() implies p[i] != '+' by {
            assert(raw.contains(p[i]));
            let m = choose|m: int| 0 <= m < raw.len() && raw[m] == p[i];
            assert(ps[ps.len() - 1][m] != '+');
        }
        if c.key is None {
            if let Some(k) = parts_spec(ps, value)->Ok_0.key {
                assert(key_spec(p) == Ok::<Seq<char>, Seq<char>>(k));
            }
        }
    }
}

proof fn lemma_parts_push(ps: Seq<Seq<char>>, x: Seq<char>, value: Seq<char>)
    ensures
        parts_spec(ps.push(x), value) == match parts_spec(ps, value) {
            Err(e) => Err(e),
            Ok(c) => part_spec(c, x, value),
        },
{
    assert(ps.push(x).drop_last() =~= ps);
    assert(ps.push(x).last() == x);
}

/// The chord an accelerator in its one spelling reads as.
proof fn lemma_modifiers_read(c: Chord, value: Seq<char>)
    ensures
        part_spec(c, "Ctrl"@, value) == Ok::<Chord, Seq<char>>(Chord { ctrl: true, ..c }),
        part_spec(c, "Alt"@, value) == Ok::<Chord, Seq<char>>(Chord { alt: true, ..c }),
        part_spec(c, "Shift"@, value) == Ok::<Chord, Seq<char>>(Chord { shift: true, ..c }),
        part_spec(c, "Meta"@, value) == Ok::<Chord, Seq<char>>(Chord { meta: true, ..c }),
{
    reveal_strlit("Ctrl");
    reveal_strlit("Alt");
    reveal_strlit("Shift");
    reveal_strlit("Meta");
    reveal_strlit("ctrl");
    reveal_strlit("control");
    reveal_strlit("alt");
    reveal_strlit("option");
    reveal_strlit("shift");
    reveal_strlit("meta");
    assert(trim("Ctrl"@) == "Ctrl"@);
    assert(trim("Alt"@) == "Alt"@);
    assert(trim("Shift"@) == "Shift"@);
    assert(trim("Meta"@) == "Meta"@);
    assert(ascii_lower_chars("Ctrl"@) =~= "ctrl"@);
    assert(ascii_lower_chars("Alt"@) =~= "alt"@);
    assert(ascii_lower_chars("Shift"@) =~= "shift"@);
    assert(ascii_lower_chars("Meta"@) =~= "meta"@);
    assert("meta"@[0] != "ctrl"@[0]);
}

/// A key that reads back as itself.
pub open spec fn fixed_key(k: Seq<char>) -> bool {
    &&& key_name(ascii_lower_chars(k)) == Some(k)
    &&& !media_key(k)
    &&& k.len() > 0
    &&& !is_space(k[0])
    &&& !is_space(k.last())
    &&& forall|i: int| 0 <= i < k.len() ==> k[i] != '+'
    &&& !modifier_word(ascii_lower_chars(k))
}

/// The text of a chord in the one spelling.
pub open spec fn chord_text(c: Chord, k: Seq<char>) -> Seq<char> {
    mod_text(c.ctrl, "Ctrl"@) + mod_text(c.alt, "Alt"@) + mod_text(c.shift, "Shift"@) + mod_text(
        c.meta,
        "Meta"@,
    ) + k
}

/// The modifier parts of a chord, in the one order.
pub open spec fn chord_mods(c: Chord) -> Seq<Seq<char>> {
    let s1 = if c.ctrl { seq!["Ctrl"@] } else { Seq::empty() };
    let s2 = if c.alt { s1.push("Alt"@) } else { s1 };
    let s3 = if c.shift { s2.push("Shift"@) } else { s2 };
    if c.meta { s3.push("Meta"@) } else { s3 }
}

proof fn lemma_chord_text_trimmed(c: Chord, k: Seq<char>)
    requires
        fixed_key(k),
    ensures
        trim(chord_text(c, k)) == chord_text(c, k),
{
    reveal_strlit("Ctrl");
    reveal_strlit("Alt");
    reveal_strlit("Shift");
    reveal_strlit("Meta");
    reveal_strlit("+");
    let a = chord_text(c, k);
    assert(a.last() == k.last());
    assert(!is_space(a[0])) by {
        if !c.ctrl && !c.alt && !c.shift && !c.meta {
            assert(a[0] == k[0]);
        } else if c.ctrl {
            assert(a[0] == 'C');
        } else if c.alt {
            assert(a[0] == 'A');
        } else if c.shift {
            assert(a[0] == 'S');
        } else {
            assert(a[0] == 'M');
        }
    }
    assert(trim_start(a) == a);
    assert(trim_end(a) == a);
}

proof fn lemma_chord_text_splits(c: Chord, k: Seq<char>)
    requires
        fixed_key(k),
    ensures
        split_on(chord_text(c, k), '+') == chord_mods(c).push(k),
{
    reveal_strlit("Ctrl");
    reveal_strlit("Alt");
    reveal_strlit("Shift");
    reveal_strlit("Meta");
    let m1 = mod_text(c.ctrl, "Ctrl"@);
    let m2 = mod_text(c.alt, "Alt"@);
    let m3 = mod_text(c.shift, "Shift"@);
    let m4 = mod_text(c.meta, "Meta"@);
    let r4 = m4 + k;
    let r3 = m3 + r4;
    let r2 = m2 + r3;
    assert(chord_text(c, k) =~= m1 + r2);
    let e = Seq::<char>::empty();
    lemma_split_mod(c.ctrl, "Ctrl"@, r2);
    lemma_split_mod(c.alt, "Alt"@, r3);
    lemma_split_mod(c.shift, "Shift"@, r4);
    lemma_split_mod(c.meta, "Meta"@, k);
    lemma_split_run(k, e, '+', e);
    assert(k + e =~= k);
    assert(e + k =~= k);
    assert(split_after(k, '+', e) == seq![k]);
    assert(split_on(chord_text(c, k), '+') =~= chord_mods(c).push(k));
}

proof fn lemma_chord_parts_read(c: Chord, k: Seq<char>, value: Seq<char>)
    requires
        fixed_key(k),
    ensures
        parts_spec(chord_mods(c).push(k), value) == Ok::<Chord, Seq<char>>(
            Chord { ctrl: c.ctrl, alt: c.alt, shift: c.shift, meta: c.meta, key: Some(k) },
        ),
{
    let s0 = Seq::<Seq<char>>::empty();
    let s1 = if c.ctrl { s0.push("Ctrl"@) } else { s0 };
    let s2 = if c.alt { s1.push("Alt"@) } else { s1 };
    let s3 = if c.shift { s2.push("Shift"@) } else { s2 };
    let s4 = if c.meta { s3.push("Meta"@) } else { s3 };
    assert(s4 =~= chord_mods(c));
    let c0 = Chord { ctrl: false, alt: false, shift: false, meta: false, key: None };
    let c1 = Chord { ctrl: c.ctrl, ..c0 };
    let c2 = Chord { alt: c.alt, ..c1 };
    let c3 = Chord { shift: c.shift, ..c2 };
    let c4 = Chord { meta: c.meta, ..c3 };
    lemma_modifiers_read(c0, value);
    lemma_modifiers_read(c1, value);
    lemma_modifiers_read(c2, value);
    lemma_modifiers_read(c3, value);
    lemma_parts_push(s0, "Ctrl"@, value);
    lemma_parts_push(s1, "Alt"@, value);
    lemma_parts_push(s2, "Shift"@, value);
    lemma_parts_push(s3, "Meta"@, value);
    lemma_parts_push(s4, k, value);
    assert(parts_spec(s0, value) == Ok::<Chord, Seq<char>>(c0));
    assert(parts_spec(s1, value) == Ok::<Chord, Seq<char>>(c1));
    assert(parts_spec(s2, value) == Ok::<Chord, Seq<char>>(c2));
    assert(parts_spec(s3, value) == Ok::<Chord, Seq<char>>(c3));
    assert(parts_spec(s4, value) == Ok::<Chord, Seq<char>>(c4));
    assert(trim(k) == k);
    assert(key_spec(k) == Ok::<Seq<char>, Seq<char>>(k));
}

/// Normalising an accelerator twice gives what normalising it once gave: the one spelling
/// reads back as itself.
pub proof fn law_accelerator_normal_form_is_fixed(value: Seq<char>)
    requires
        accelerator_spec(value) is Ok,
    ensures
        accelerator_spec(accelerator_spec(value)->Ok_0) == accelerator_spec(value),
{
    let t = trim(value);
    if t.len() == 0 {
        assert(trim(Seq::<char>::empty()) =~= Seq::<char>::empty());
    } else {
        let ps = split_on(t, '+');
        lemma_split_pieces(t, '+', Seq::empty());
        lemma_parts_key(ps, value);
        let c = parts_spec(ps, value)->Ok_0;
        let k = c.key->Some_0;
        let p = choose|p: Seq<char>|
            (forall|i: int| 0 <= i < p.len() ==> p[i] != '+') && #[trigger] key_spec(p) == Ok::<
                Seq<char>,
                Seq<char>,
            >(k);
        lemma_key_reads_back(p);
        let a = chord_text(c, k);
        assert(accelerator_spec(value) == Ok::<Seq<char>, Seq<char>>(a));
        lemma_chord_text_trimmed(c, k);
        lemma_chord_text_splits(c, k);
        lemma_chord_parts_read(c, k, a);
    }
}

proof fn lemma_shortcut_fixed(sp: ShortcutPayloadView)
    requires
        shortcut_spec(sp) is Ok,
    ensures
        shortcut_spec(shortcut_spec(sp)->Ok_0) == shortcut_spec(sp),
{
    let sc = scope_of(sp.scope)->Some_0;
    lemma_scope_name_of(sc);
    law_accelerator_normal_form_is_fixed(sp.accelerator);
}

proof fn lemma_shortcuts_fixed(v: Seq<ShortcutPayloadView>)
    requires
        shortcuts_spec(v) is Ok,
    ensures
        shortcuts_spec(shortcuts_spec(v)->Ok_0) == shortcuts_spec(v),
    decreases v.len(),
{
    if v.len() > 0 {
        lemma_shortcuts_fixed(v.drop_last());
        lemma_shortcut_fixed(v.last());
        let w = shortcuts_spec(v.drop_last())->Ok_0;
        let x = shortcut_spec(v.last())->Ok_0;
        assert(w.push(x).drop_last() =~= w);
        assert(w.push(x).last() == x);
    }
}

/// Normalising keyboard settings twice gives what normalising them once gave: settings that
/// passed are already in their one spelling and pass again unchanged.
pub proof fn law_settings_normal_form_is_fixed(p: SettingsView)
    requires
        validate_spec(p) is Ok,
    ensures
        validate_spec(validate_spec(p)->Ok_0) == validate_spec(p),
{
    law_accelerator_normal_form_is_fixed(p.new_window_hotkey);
    law_accelerator_normal_form_is_fixed(p.show_window_hotkey);
    law_accelerator_normal_form_is_fixed(p.toggle_window_hotkey);
    lemma_shortcuts_fixed(p.command_shortcuts);
}

/// The lower-cased text of an accelerator part.
pub open spec fn part_word(raw: Seq<char>) -> Seq<char> {
    ascii_lower_chars(trim(raw))
}

pub open spec fn ctrl_word(l: Seq<char>) -> bool {
    l == "ctrl"@ || l == "control"@
}

pub open spec fn alt_word(l: Seq<char>) -> bool {
    l == "alt"@ || l == "option"@
}

pub open spec fn meta_word(l: Seq<char>) -> bool {
    l == "meta"@ || l == "cmd"@ || l == "command"@ || l == "super"@
}

/// A part that names the key rather than a modifier.
pub open spec fn key_part(raw: Seq<char>) -> bool {
    !modifier_word(part_word(raw))
}

/// The chord that the parts stand for, read without regard to their order.
pub open spec fn chord_of(ps: Seq<Seq<char>>) -> Chord {
    Chord {
        ctrl: exists|i: int| 0 <= i < ps.len() && ctrl_word(#[trigger] part_word(ps[i])),
        alt: exists|i: int| 0 <= i < ps.len() && alt_word(#[trigger] part_word(ps[i])),
        shift: exists|i: int| 0 <= i < ps.len() && #[trigger] part_word(ps[i]) == "shift"@,
        meta: exists|i: int| 0 <= i < ps.len() && meta_word(#[trigger] part_word(ps[i])),
        key: if exists|i: int| 0 <= i < ps.len() && #[trigger] key_part(ps[i]) {
            Some(key_spec(trim(ps[choose|i: int| 0 <= i < ps.len() && #[trigger] key_part(ps[i])]))->Ok_0)
        } else {
            None
        },
    }
}

/// Parts that an accelerator can be read from: none blank, one key part at most, and its key
/// supported.
pub open spec fn readable_parts(ps: Seq<Seq<char>>) -> bool {
    &&& forall|i: int| 0 <= i < ps.len() ==> trim(#[trigger] ps[i]).len() > 0
    &&& forall|i: int| 0 <= i < ps.len() && #[trigger] key_part(ps[i]) ==> key_spec(trim(ps[i])) is Ok
    &&& forall|i: int, j: int| 0 <= i < ps.len() && 0 <= j < ps.len() && #[trigger] key_part(ps[i]) && #[trigger] key_part(ps[j]) ==> i == j
}

proof fn lemma_modifier_words_apart(l: Seq<char>)
    ensures
        ctrl_word(l) ==> !alt_word(l) && l != "shift"@ && !meta_word(l),
        alt_word(l) ==> l != "shift"@ && !meta_word(l),
        l == "shift"@ ==> !meta_word(l),
        modifier_word(l) == (ctrl_word(l) || alt_word(l) || l == "shift"@ || meta_word(l)),
{
    reveal_strlit("ctrl");
    reveal_strlit("control");
    reveal_strlit("alt");
    reveal_strlit("option");
    reveal_strlit("shift");
    reveal_strlit("meta");
    reveal_strlit("cmd");
    reveal_strlit("command");
    reveal_strlit("super");
    assert("ctrl"@[0] != "meta"@[0]);
    assert("control"@[2] != "command"@[2]);
    assert("alt"@[0] != "cmd"@[0]);
    assert("shift"@[1] != "super"@[1]);
    assert("ctrl"@.len() == 4 && "control"@.len() == 7 && "alt"@.len() == 3 && "option"@.len() == 6
        && "shift"@.len() == 5 && "meta"@.len() == 4 && "cmd"@.len() == 3 && "command"@.len() == 7
        && "super"@.len() == 5);
    assert("ctrl"@ != "cmd"@ && "control"@ != "cmd"@ && "ctrl"@ != "command"@ && "ctrl"@ != "super"@);
}

/// The chord of parts with one more part: its flags join the new part's, and its key is the
/// new part's where that is the key part, else the key of the others.
proof fn lemma_chord_of_push(pre: Seq<Seq<char>>, x: Seq<char>)
    requires
        forall|i: int, j: int|
            0 <= i < pre.len() && 0 <= j < pre.len() && #[trigger] key_part(pre[i]) && #[trigger] key_part(pre[j])
                ==> i == j,
        key_part(x) ==> forall|i: int| 0 <= i < pre.len() ==> !#[trigger] key_part(pre[i]),
    ensures
        ({
            let c0 = chord_of(pre);
            let c = chord_of(pre.push(x));
            let l = part_word(x);
            &&& c.ctrl == (c0.ctrl || ctrl_word(l))
            &&& c.alt == (c0.alt || alt_word(l))
            &&& c.shift == (c0.shift || l == "shift"@)
            &&& c.meta == (c0.meta || meta_word(l))
            &&& c.key == if key_part(x) {
                Some(key_spec(trim(x))->Ok_0)
            } else {
                c0.key
            }
        }),
{
    let ps = pre.push(x);
    let n = pre.len() as int;
    assert forall|i: int| 0 <= i < n implies #[trigger] ps[i] == pre[i] by {}
    assert(ps[n] == x);
    let cp = chord_of(ps);
    let c0 = chord_of(pre);
    if cp.ctrl {
        let i = choose|i: int| 0 <= i < ps.len() && ctrl_word(#[trigger] part_word(ps[i]));
        if i < n {
            assert(ctrl_word(part_word(pre[i])));
        }
    }
    if c0.ctrl {
        let i = choose|i: int| 0 <= i < pre.len() && ctrl_word(#[trigger] part_word(pre[i]));
        assert(ctrl_word(part_word(ps[i])));
    }
    if ctrl_word(part_word(x)) {
        assert(ctrl_word(part_word(ps[n])));
    }
    if cp.alt {
        let i = choose|i: int| 0 <= i < ps.len() && alt_word(#[trigger] part_word(ps[i]));
        if i < n {
            assert(alt_word(part_word(pre[i])));
        }
    }
    if c0.alt {
        let i = choose|i: int| 0 <= i < pre.len() && alt_word(#[trigger] part_word(pre[i]));
        assert(alt_word(part_word(ps[i])));
    }
    if alt_word(part_word(x)) {
        assert(alt_word(part_word(ps[n])));
    }
    if cp.shift {
        let i = choose|i: int| 0 <= i < ps.len() && #[trigger] part_word(ps[i]) == "shift"@;
        if i < n {
            assert(part_word(pre[i]) == "shift"@);
        }
    }
    if c0.shift {
        let i = choose|i: int| 0 <= i < pre.len() && #[trigger] part_word(pre[i]) == "shift"@;
        assert(part_word(ps[i]) == "shift"@);
    }
    if part_word(x) == "shift"@ {
        assert(part_word(ps[n]) == "shift"@);
    }
    if cp.meta {
        let i = choose|i: int| 0 <= i < ps.len() && meta_word(#[trigger] part_word(ps[i]));
        if i < n {
            assert(meta_word(part_word(pre[i])));
        }
    }
    if c0.meta {
        let i = choose|i: int| 0 <= i < pre.len() && meta_word(#[trigger] part_word(pre[i]));
        assert(meta_word(part_word(ps[i])));
    }
    if meta_word(part_word(x)) {
        assert(meta_word(part_word(ps[n])));
    }
    if key_part(x) {
        assert(key_part(ps[n]));
        let i = choose|i: int| 0 <= i < ps.len() && #[trigger] key_part(ps[i]);
        if i < n {
            assert(key_part(pre[i]));
        }
        assert(i == n);
    } else {
        if exists|i: int| 0 <= i < ps.len() && #[trigger] key_part(ps[i]) {
            let i = choose|i: int| 0 <= i < ps.len() && #[trigger] key_part(ps[i]);
            assert(i < n);
            assert(key_part(pre[i]));
            let j = choose|j: int| 0 <= j < pre.len() && #[trigger] key_part(pre[j]);
            assert(i == j);
        } else {
            if exists|j: int| 0 <= j < pre.len() && #[trigger] key_part(pre[j]) {
                let j = choose|j: int| 0 <= j < pre.len() && #[trigger] key_part(pre[j]);
                assert(key_part(ps[j]));
            }
        }
    }
}

/// Reading parts that succeeds reads readable parts, as the chord they stand for; readable
/// parts are always read so.
proof fn lemma_parts_read_any_order(ps: Seq<Seq<char>>, value: Seq<char>)
    ensures
        parts_spec(ps, value) is Ok ==> readable_parts(ps),
        readable_parts(ps) ==> parts_spec(ps, value) == Ok::<Chord, Seq<char>>(chord_of(ps)),
    decreases ps.len(),
{
    if ps.len() == 0 {
        assert(chord_of(ps) == Chord { ctrl: false, alt: false, shift: false, meta: false, key: None });
    } else {
        let pre = ps.drop_last();
        let x = ps.last();
        let n = pre.len() as int;
        lemma_parts_read_any_order(pre, value);
        lemma_modifier_words_apart(part_word(x));
        assert(pre.push(x) =~= ps);
        assert forall|i: int| 0 <= i < n implies #[trigger] ps[i] == pre[i] by {}
        assert(ps[n] == x);
        let ok = parts_spec(ps, value) is Ok;
        let rd = readable_parts(ps);
        if rd {
            assert forall|i: int| 0 <= i < pre.len() implies trim(#[trigger] pre[i]).len() > 0 by {
                assert(pre[i] == ps[i]);
            }
            assert forall|i: int| 0 <= i < pre.len() && #[trigger] key_part(pre[i]) implies key_spec(
                trim(pre[i]),
            ) is Ok by {
                assert(pre[i] == ps[i]);
            }
            assert forall|i: int, j: int|
                0 <= i < pre.len() && 0 <= j < pre.len() && #[trigger] key_part(pre[i])
                    && #[trigger] key_part(pre[j]) implies i == j by {
                assert(key_part(ps[i]));
                assert(key_part(ps[j]));
            }
            assert(readable_parts(pre));
        }
        if ok || rd {
            assert(parts_spec(pre, value) is Ok);
            assert(readable_parts(pre));
            let c0 = chord_of(pre);
            assert(parts_spec(pre, value) == Ok::<Chord, Seq<char>>(c0));
            assert(trim(x).len() > 0) by {
                if rd {
                    assert(trim(ps[n]).len() > 0);
                }
            }
            if key_part(x) {
                // The only key part.
                if ok {
                    assert(c0.key is None);
                }
                assert forall|i: int| 0 <= i < pre.len() implies !#[trigger] key_part(pre[i]) by {
                    if key_part(pre[i]) {
                        if rd {
                            assert(key_part(ps[i]));
                            assert(key_part(ps[n]));
                        } else {
                            assert(c0.key is Some);
                        }
                    }
                }
                lemma_chord_of_push(pre, x);
                if rd {
                    assert(key_spec(trim(ps[n])) is Ok);
                }
                if ok {
                    assert forall|i: int| 0 <= i < ps.len() && #[trigger] key_part(ps[i]) implies key_spec(
                        trim(ps[i]),
                    ) is Ok by {
                        if i < n {
                            assert(key_part(pre[i]));
                        }
                    }
                    assert forall|i: int, j: int|
                        0 <= i < ps.len() && 0 <= j < ps.len() && #[trigger] key_part(ps[i])
                            && #[trigger] key_part(ps[j]) implies i == j by {
                        if i < n {
                            assert(key_part(pre[i]));
                        }
                        if j < n {
                            assert(key_part(pre[j]));
                        }
                    }
                    assert forall|i: int| 0 <= i < ps.len() implies trim(#[trigger] ps[i]).len() > 0 by {
                        if i < n {
                            assert(trim(pre[i]).len() > 0);
                        }
                    }
                }
            } else {
                lemma_chord_of_push(pre, x);
                if ok {
                    assert forall|i: int| 0 <= i < ps.len() && #[trigger] key_part(ps[i]) implies key_spec(
                        trim(ps[i]),
                    ) is Ok by {
                        if i < n {
                            assert(key_part(pre[i]));
                        }
                    }
                    assert forall|i: int, j: int|
                        0 <= i < ps.len() && 0 <= j < ps.len() && #[trigger] key_part(ps[i])
                            && #[trigger] key_part(ps[j]) implies i == j by {
                        if i < n {
                            assert(key_part(pre[i]));
                        }
                        if j < n {
                            assert(key_part(pre[j]));
                        }
                    }
                    assert forall|i: int| 0 <= i < ps.len() implies trim(#[trigger] ps[i]).len() > 0 by {
                        if i < n {
                            assert(trim(pre[i]).len() > 0);
                        }
                    }
                }
            }
        }
    }
}

/// The same parts in another order are as readable, and stand for the same chord.
proof fn lemma_permuted_parts(ps: Seq<Seq<char>>, qs: Seq<Seq<char>>, order: Seq<usize>)
    requires
        is_permutation(order, ps.len() as int),
        qs.len() == ps.len(),
        forall|i: int| 0 <= i < qs.len() ==> #[trigger] qs[i] == ps[order[i] as int],
        readable_parts(ps),
    ensures
        readable_parts(qs),
        chord_of(qs) == chord_of(ps),
{
    let n = ps.len() as int;
    assert forall|i: int| 0 <= i < n implies trim(#[trigger] qs[i]).len() > 0 by {
        assert(qs[i] == ps[order[i] as int]);
    }
    assert forall|i: int| 0 <= i < n && #[trigger] key_part(qs[i]) implies key_spec(trim(qs[i])) is Ok by {
        assert(qs[i] == ps[order[i] as int]);
        assert(key_part(ps[order[i] as int]));
    }
    assert forall|i: int, j: int|
        0 <= i < n && 0 <= j < n && #[trigger] key_part(qs[i]) && #[trigger] key_part(qs[j]) implies i == j by {
        assert(qs[i] == ps[order[i] as int]);
        assert(qs[j] == ps[order[j] as int]);
        assert(key_part(ps[order[i] as int]));
        assert(key_part(ps[order[j] as int]));
        assert(order[i] == order[j]);
        if i < j {
            assert(order[i] != order[j]);
        } else if j < i {
            assert(order[j] != order[i]);
        }
    }
    // Each part of one is a part of the other.
    assert forall|v: int| 0 <= v < n implies #[trigger] holds_position(order, v) && exists|i: int| 0 <= i < n && #[trigger] qs[i] == ps[v] by {
        assert(holds_position(order, v));
        let i = choose|i: int| 0 <= i < order.len() && order[i] == v;
        assert(qs[i] == ps[v]);
    }
    let cq = chord_of(qs);
    let cp = chord_of(ps);
    if cq.ctrl {
        let i = choose|i: int| 0 <= i < qs.len() && ctrl_word(#[trigger] part_word(qs[i]));
        assert(qs[i] == ps[order[i] as int]);
        assert(ctrl_word(part_word(ps[order[i] as int])));
    }
    if cp.ctrl {
        let v = choose|v: int| 0 <= v < ps.len() && ctrl_word(#[trigger] part_word(ps[v]));
        assert(holds_position(order, v));
        let i = choose|i: int| 0 <= i < n && #[trigger] qs[i] == ps[v];
        assert(ctrl_word(part_word(qs[i])));
    }
    if cq.alt {
        let i = choose|i: int| 0 <= i < qs.len() && alt_word(#[trigger] part_word(qs[i]));
        assert(qs[i] == ps[order[i] as int]);
        assert(alt_word(part_word(ps[order[i] as int])));
    }
    if cp.alt {
        let v = choose|v: int| 0 <= v < ps.len() && alt_word(#[trigger] part_word(ps[v]));
        assert(holds_position(order, v));
        let i = choose|i: int| 0 <= i < n && #[trigger] qs[i] == ps[v];
        assert(alt_word(part_word(qs[i])));
    }
    if cq.shift {
        let i = choose|i: int| 0 <= i < qs.len() && #[trigger] part_word(qs[i]) == "shift"@;
        assert(qs[i] == ps[order[i] as int]);
        assert(part_word(ps[order[i] as int]) == "shift"@);
    }
    if cp.shift {
        let v = choose|v: int| 0 <= v < ps.len() && #[trigger] part_word(ps[v]) == "shift"@;
        assert(holds_position(order, v));
        let i = choose|i: int| 0 <= i < n && #[trigger] qs[i] == ps[v];
        assert(part_word(qs[i]) == "shift"@);
    }
    if cq.meta {
        let i = choose|i: int| 0 <= i < qs.len() && meta_word(#[trigger] part_word(qs[i]));
        assert(qs[i] == ps[order[i] as int]);
        assert(meta_word(part_word(ps[order[i] as int])));
    }
    if cp.meta {
        let v = choose|v: int| 0 <= v < ps.len() && meta_word(#[trigger] part_word(ps[v]));
        assert(holds_position(order, v));
        let i = choose|i: int| 0 <= i < n && #[trigger] qs[i] == ps[v];
        assert(meta_word(part_word(qs[i])));
    }
    if exists|i: int| 0 <= i < qs.len() && #[trigger] key_part(qs[i]) {
        let i = choose|i: int| 0 <= i < qs.len() && #[trigger] key_part(qs[i]);
        assert(qs[i] == ps[order[i] as int]);
        assert(key_part(ps[order[i] as int]));
        let v = choose|v: int| 0 <= v < ps.len() && #[trigger] key_part(ps[v]);
        assert(v == order[i] as int);
    } else if exists|v: int| 0 <= v < ps.len() && #[trigger] key_part(ps[v]) {
        let v = choose|v: int| 0 <= v < ps.len() && #[trigger] key_part(ps[v]);
        assert(holds_position(order, v));
        let i = choose|i: int| 0 <= i < n && #[trigger] qs[i] == ps[v];
        assert(key_part(qs[i]));
    }
}

/// The parts of an accelerator can come in any order: an accelerator whose `+`-separated parts
/// are those of one that normalises, in another order, normalises to the same spelling.
pub proof fn law_accelerator_parts_in_any_order(value: Seq<char>, other: Seq<char>, order: Seq<usize>)
    requires
        accelerator_spec(value) is Ok,
        trim(value).len() > 0,
        is_permutation(order, split_on(trim(value), '+').len() as int),
        split_on(trim(other), '+').len() == split_on(trim(value), '+').len(),
        forall|i: int|
            0 <= i < split_on(trim(other), '+').len() ==> #[trigger] split_on(trim(other), '+')[i]
                == split_on(trim(value), '+')[order[i] as int],
    ensures
        accelerator_spec(other) == accelerator_spec(value),
{
    let ps = split_on(trim(value), '+');
    let qs = split_on(trim(other), '+');
    lemma_parts_read_any_order(ps, value);
    lemma_parts_read_any_order(qs, other);
    lemma_permuted_parts(ps, qs, order);
    if trim(other).len() == 0 {
        assert(qs == seq![Seq::<char>::empty()]);
        assert(trim(qs[0]).len() > 0);
        assert(trim(Seq::<char>::empty()) =~= Seq::<char>::empty());
    }
}

/// A blank accelerator stays blank; any other that normalises is the modifiers it names, in
/// the order Ctrl, Alt, Shift, Meta, each followed by `+`, then one key that reads back as
/// itself.
pub proof fn law_accelerator_shape(value: Seq<char>)
    requires
        accelerator_spec(value) is Ok,
    ensures
        trim(value).len() == 0 ==> accelerator_spec(value)->Ok_0 == Seq::<char>::empty(),
        trim(value).len() > 0 ==> exists|c: Chord, k: Seq<char>|
            fixed_key(k) && #[trigger] chord_text(c, k) == accelerator_spec(value)->Ok_0,
{
    let t = trim(value);
    if t.len() > 0 {
        let ps = split_on(t, '+');
        lemma_split_pieces(t, '+', Seq::empty());
        lemma_parts_key(ps, value);
        let c = parts_spec(ps, value)->Ok_0;
        let k = c.key->Some_0;
        let p = choose|p: Seq<char>|
            (forall|i: int| 0 <= i < p.len() ==> p[i] != '+') && #[trigger] key_spec(p) == Ok::<
                Seq<char>,
                Seq<char>,
            >(k);
        lemma_key_reads_back(p);
        assert(chord_text(c, k) == accelerator_spec(value)->Ok_0);
    }
}

proof fn lemma_shortcuts_each(v: Seq<ShortcutPayloadView>)
    requires
        shortcuts_spec(v) is Ok,
    ensures
        shortcuts_spec(v)->Ok_0.len() == v.len(),
        forall|i: int|
            0 <= i < v.len() ==> shortcut_spec(v[i]) == Ok::<ShortcutPayloadView, Seq<char>>(
                #[trigger] shortcuts_spec(v)->Ok_0[i],
            ),
    decreases v.len(),
{
    if v.len() > 0 {
        lemma_shortcuts_each(v.drop_last());
        let w = shortcuts_spec(v.drop_last())->Ok_0;
        let x = shortcut_spec(v.last())->Ok_0;
        assert forall|i: int| 0 <= i < v.len() implies shortcut_spec(v[i]) == Ok::<
            ShortcutPayloadView,
            Seq<char>,
        >(#[trigger] shortcuts_spec(v)->Ok_0[i]) by {
            if i < v.len() - 1 {
                assert(v[i] == v.drop_last()[i]);
                assert(w.push(x)[i] == w[i]);
            }
        }
    }
}

proof fn lemma_no_clash_before(v: Seq<ShortcutPayloadView>, i: int, j: int)
    requires
        clash_before(v, i, j) is None,
    ensures
        forall|k: int|
            0 <= k < j ==> !(v[k].accelerator == v[i].accelerator && scopes_conflict(#[trigger] v[k].scope, v[i].scope)),
    decreases j,
{
    if j > 0 {
        lemma_no_clash_before(v, i, j - 1);
    }
}

proof fn lemma_no_clash(v: Seq<ShortcutPayloadView>, n: int)
    requires
        clash_error(v, n) is None,
    ensures
        forall|i: int, j: int|
            0 <= i < j < n ==> !(v[i].accelerator == v[j].accelerator && scopes_conflict(
                #[trigger] v[i].scope,
                #[trigger] v[j].scope,
            )),
    decreases n,
{
    if n > 0 {
        lemma_no_clash(v, n - 1);
        lemma_no_clash_before(v, n - 1, n - 1);
    }
}

/// What normalising keyboard settings gives where it succeeds: each window hotkey in its one
/// spelling, no two non-blank hotkeys alike; the shortcuts in the given order, each with its
/// command id (not blank), its scope (one of the three names) and its accelerator in its one
/// spelling (not blank); and no two shortcuts on the same keys where either is global or both
/// have the same scope.
pub proof fn law_validated_settings_shape(p: SettingsView)
    requires
        validate_spec(p) is Ok,
    ensures
        ({
            let n = validate_spec(p)->Ok_0;
            let cs = n.command_shortcuts;
            &&& accelerator_spec(p.new_window_hotkey) == Ok::<Seq<char>, Seq<char>>(n.new_window_hotkey)
            &&& accelerator_spec(p.show_window_hotkey) == Ok::<Seq<char>, Seq<char>>(n.show_window_hotkey)
            &&& accelerator_spec(p.toggle_window_hotkey) == Ok::<Seq<char>, Seq<char>>(n.toggle_window_hotkey)
            &&& n.show_window_hotkey.len() > 0 ==> n.show_window_hotkey != n.new_window_hotkey
            &&& n.toggle_window_hotkey.len() > 0 ==> n.toggle_window_hotkey != n.new_window_hotkey
                && n.toggle_window_hotkey != n.show_window_hotkey
            &&& cs.len() == p.command_shortcuts.len()
            &&& forall|i: int|
                0 <= i < cs.len() ==> {
                    &&& (#[trigger] cs[i]).command_id == p.command_shortcuts[i].command_id
                    &&& trim(cs[i].command_id).len() > 0
                    &&& cs[i].scope == p.command_shortcuts[i].scope
                    &&& scope_of(cs[i].scope) is Some
                    &&& accelerator_spec(p.command_shortcuts[i].accelerator) == Ok::<Seq<char>, Seq<char>>(
                        cs[i].accelerator,
                    )
                    &&& cs[i].accelerator.len() > 0
                }
            &&& forall|i: int, j: int|
                0 <= i < j < cs.len() ==> !(cs[i].accelerator == cs[j].accelerator && scopes_conflict(
                    #[trigger] cs[i].scope,
                    #[trigger] cs[j].scope,
                ))
        }),
{
    let n = validate_spec(p)->Ok_0;
    let v = p.command_shortcuts;
    lemma_shortcuts_each(v);
    let cs = n.command_shortcuts;
    assert forall|i: int| 0 <= i < cs.len() implies {
        &&& (#[trigger] cs[i]).command_id == v[i].command_id
        &&& trim(cs[i].command_id).len() > 0
        &&& cs[i].scope == v[i].scope
        &&& scope_of(cs[i].scope) is Some
        &&& accelerator_spec(v[i].accelerator) == Ok::<Seq<char>, Seq<char>>(cs[i].accelerator)
        &&& cs[i].accelerator.len() > 0
    } by {
        assert(shortcut_spec(v[i]) == Ok::<ShortcutPayloadView, Seq<char>>(cs[i]));
        let sc = scope_of(v[i].scope)->Some_0;
        lemma_scope_name_of(sc);
        reveal_strlit("global");
        reveal_strlit("search_edit");
        reveal_strlit("result_list");
    }
    lemma_no_clash(cs, cs.len() as int);
}

/// The long spelling of a key word: each short alias spelled out (`left` is `arrowleft`,
/// `esc` is `escape`, `return` is `enter`, `.` is `period`, ...); other words as they are.
pub open spec fn long_key_word(l: Seq<char>) -> Seq<char> {
    if l == "return"@ {
        "enter"@
    } else if l == "esc"@ {
        "escape"@
    } else if l == "up"@ {
        "arrowup"@
    } else if l == "down"@ {
        "arrowdown"@
    } else if l == "left"@ {
        "arrowleft"@
    } else if l == "right"@ {
        "arrowright"@
    } else if l == "del"@ {
        "delete"@
    } else if l == "spacebar"@ {
        "space"@
    } else if l == "."@ {
        "period"@
    } else if l == ","@ {
        "comma"@
    } else {
        l
    }
}

/// Each key word names the key spelled like its long form: the key `key_name` gives for a
/// lower-case word is, lower-cased, that word with its alias spelled out (`left` names
/// `ArrowLeft`, `esc` names `Escape`, `f5` names `F5`, `a` names `A`).
pub proof fn law_key_names_spell_the_word(l: Seq<char>)
    requires
        crate::text::no_ascii_upper(l),
        key_name(l) is Some,
    ensures
        ascii_lower_chars(key_name(l)->Some_0) == long_key_word(l),
{
    reveal_strlit("enter");
    reveal_strlit("return");
    reveal_strlit("escape");
    reveal_strlit("esc");
    reveal_strlit("arrowup");
    reveal_strlit("up");
    reveal_strlit("arrowdown");
    reveal_strlit("down");
    reveal_strlit("arrowleft");
    reveal_strlit("left");
    reveal_strlit("arrowright");
    reveal_strlit("right");
    reveal_strlit("delete");
    reveal_strlit("del");
    reveal_strlit("backspace");
    reveal_strlit("space");
    reveal_strlit("spacebar");
    reveal_strlit("period");
    reveal_strlit(".");
    reveal_strlit("comma");
    reveal_strlit(",");
    reveal_strlit("tab");
    reveal_strlit("mediatrackprevious");
    reveal_strlit("mediatracknext");
    reveal_strlit("mediaplaypause");
    reveal_strlit("mediastop");
    reveal_strlit("audiovolumedown");
    reveal_strlit("audiovolumeup");
    reveal_strlit("audiovolumemute");
    reveal_strlit("Enter");
    reveal_strlit("Escape");
    reveal_strlit("ArrowUp");
    reveal_strlit("ArrowDown");
    reveal_strlit("ArrowLeft");
    reveal_strlit("ArrowRight");
    reveal_strlit("Delete");
    reveal_strlit("Backspace");
    reveal_strlit("Space");
    reveal_strlit("Period");
    reveal_strlit("Comma");
    reveal_strlit("Tab");
    reveal_strlit("MediaTrackPrevious");
    reveal_strlit("MediaTrackNext");
    reveal_strlit("MediaPlayPause");
    reveal_strlit("MediaStop");
    reveal_strlit("AudioVolumeDown");
    reveal_strlit("AudioVolumeUp");
    reveal_strlit("AudioVolumeMute");
    reveal_strlit("F");
    let k = key_name(l)->Some_0;
    let lk = ascii_lower_chars(k);
    if l.len() == 1 && (l[0] as u32) < 128 && l != "."@ && l != ","@ {
        assert(lk =~= l);
    } else if l.len() > 1 && l[0] == 'f' && (forall|i: int| 1 <= i < l.len() ==> '0' <= #[trigger] l[i] <= '9') {
        assert(l[0] != "return"@[0] && l[0] != "enter"@[0] && l[0] != "escape"@[0] && l[0] != "arrowup"@[0]
            && l[0] != "up"@[0] && l[0] != "down"@[0] && l[0] != "left"@[0] && l[0] != "right"@[0]
            && l[0] != "delete"@[0] && l[0] != "backspace"@[0] && l[0] != "space"@[0]
            && l[0] != "period"@[0] && l[0] != "comma"@[0] && l[0] != "tab"@[0]);
        assert(k =~= "F"@ + l.drop_first());
        assert(lk =~= l);
    } else {
        let lw = long_key_word(l);
        assert(word_key(k) || media_key(k));
        if word_key(k) {
            lemma_named_key_reads_back(k);
            assert(lk == lw) by {
                if k == "Enter"@ { assert(lk =~= "enter"@); }
                else if k == "Escape"@ { assert(lk =~= "escape"@); }
                else if k == "ArrowUp"@ { assert(lk =~= "arrowup"@); }
                else if k == "ArrowDown"@ { assert(lk =~= "arrowdown"@); }
                else if k == "ArrowLeft"@ { assert(lk =~= "arrowleft"@); }
                else if k == "ArrowRight"@ { assert(lk =~= "arrowright"@); }
                else if k == "Delete"@ { assert(lk =~= "delete"@); }
                else if k == "Backspace"@ { assert(lk =~= "backspace"@); }
                else if k == "Space"@ { assert(lk =~= "space"@); }
                else if k == "Period"@ { assert(lk =~= "period"@); }
                else if k == "Comma"@ { assert(lk =~= "comma"@); }
                else { assert(lk =~= "tab"@); }
            }
        } else {
            assert(lk == lw) by {
                if k == "MediaTrackPrevious"@ { assert(lk =~= "mediatrackprevious"@); }
                else if k == "MediaTrackNext"@ { assert(lk =~= "mediatracknext"@); }
                else if k == "MediaPlayPause"@ { assert(lk =~= "mediaplaypause"@); }
                else if k == "MediaStop"@ { assert(lk =~= "mediastop"@); }
                else if k == "AudioVolumeDown"@ { assert(lk =~= "audiovolumedown"@); }
                else if k == "AudioVolumeUp"@ { assert(lk =~= "audiovolumeup"@); }
                else { assert(lk =~= "audiovolumemute"@); }
            }
        }
    }
}

/// The long spelling of a modifier word: `control` is `ctrl`, `option` is `alt`, `cmd`,
/// `command` and `super` are `meta`; other words as they are.
pub open spec fn long_modifier(l: Seq<char>) -> Seq<char> {
    if l == "control"@ {
        "ctrl"@
    } else if l == "option"@ {
        "alt"@
    } else if l == "cmd"@ || l == "command"@ || l == "super"@ {
        "meta"@
    } else {
        l
    }
}

/// A modifier part sets the one modifier its long spelling names, and nothing else.
pub proof fn law_modifier_parts_set_their_modifier(c: Chord, raw: Seq<char>, value: Seq<char>)
    requires
        modifier_word(part_word(raw)),
    ensures
        ({
            let m = long_modifier(part_word(raw));
            part_spec(c, raw, value) == Ok::<Chord, Seq<char>>(
                Chord {
                    ctrl: c.ctrl || m == "ctrl"@,
                    alt: c.alt || m == "alt"@,
                    shift: c.shift || m == "shift"@,
                    meta: c.meta || m == "meta"@,
                    key: c.key,
                },
            )
        }),
{
    reveal_strlit("ctrl");
    reveal_strlit("control");
    reveal_strlit("alt");
    reveal_strlit("option");
    reveal_strlit("shift");
    reveal_strlit("meta");
    reveal_strlit("cmd");
    reveal_strlit("command");
    reveal_strlit("super");
    let l = part_word(raw);
    lemma_modifier_words_apart(l);
    assert(trim(raw).len() > 0) by {
        if trim(raw).len() == 0 {
            assert(l =~= Seq::<char>::empty());
        }
    }
    assert("ctrl"@ != "alt"@ && "ctrl"@ != "shift"@ && "ctrl"@ != "meta"@ && "alt"@ != "shift"@
        && "alt"@ != "meta"@ && "shift"@ != "meta"@) by {
        assert("ctrl"@[0] != "alt"@[0] && "ctrl"@[0] != "shift"@[0] && "ctrl"@[0] != "meta"@[0]);
        assert("alt"@[0] != "shift"@[0] && "alt"@[0] != "meta"@[0] && "shift"@[0] != "meta"@[0]);
    }
}

} // verus!
