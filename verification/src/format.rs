//! Dates shown in the results list.
use vstd::prelude::*;
use crate::config::{decimal, push_decimal};
use crate::text::push_char;

verus! {

/// The calendar fields (year, month number, day, hour, minute) that `time` gives for a Unix
/// timestamp in UTC, or `None` where the timestamp is out of its range.
pub uninterp spec fn utc_fields(unix: i64) -> Option<(i32, u8, u8, u8, u8)>;

/// `time::OffsetDateTime::from_unix_timestamp`, read back as its year, month number, day, hour
/// and minute; `None` where `time` refuses the timestamp. The contract claims only that the
/// fields are a function of the timestamp; the calendar arithmetic is `time`'s.
#[verifier::external_body]
fn utc_fields_of(unix: i64) -> (r: Option<(i32, u8, u8, u8, u8)>)
    ensures
        r == utc_fields(unix),
{
    match time::OffsetDateTime::from_unix_timestamp(unix) {
        Ok(dt) => Some((dt.year(), dt.month() as u8, dt.day(), dt.hour(), dt.minute())),
        Err(_) => None,
    }
}

/// `s` with zeros in front up to `width` characters.
pub open spec fn zero_padded(s: Seq<char>, width: nat) -> Seq<char> {
    if s.len() < width {
        Seq::new((width - s.len()) as nat, |_i: int| '0') + s
    } else {
        s
    }
}

/// A year in at least four characters, the sign counted: `2019`, `0042`, `-001`, `12345`.
pub open spec fn year_text(y: int) -> Seq<char> {
    if y >= 0 {
        zero_padded(decimal(y as nat), 4)
    } else {
        seq!['-'] + zero_padded(decimal((-y) as nat), 3)
    }
}

/// A field in at least two digits.
pub open spec fn two_digits(v: nat) -> Seq<char> {
    zero_padded(decimal(v), 2)
}

/// `YYYY-MM-DD HH:MM`.
pub open spec fn utc_layout(y: int, mo: nat, d: nat, h: nat, mi: nat) -> Seq<char> {
    year_text(y) + seq!['-'] + two_digits(mo) + seq!['-'] + two_digits(d) + seq![' '] + two_digits(
        h,
    ) + seq![':'] + two_digits(mi)
}

/// The UTC text of a timestamp's calendar fields; a timestamp out of range is shown as the
/// epoch.
pub open spec fn utc_display(f: Option<(i32, u8, u8, u8, u8)>) -> Seq<char> {
    match f {
        Some(t) => utc_layout(t.0 as int, t.1 as nat, t.2 as nat, t.3 as nat, t.4 as nat),
        None => utc_layout(1970, 1, 1, 0, 0),
    }
}

/// The number of decimal digits of `n`.
fn decimal_len(n: u64) -> (r: usize)
    ensures
        r as int == decimal(n as nat).len(),
        1 <= r <= 20,
    decreases n,
{
    proof {
        lemma_decimal_len_u64(n);
    }
    if n < 10 {
        1
    } else {
        let k = decimal_len(n / 10);
        k + 1
    }
}

spec fn pow10(k: nat) -> nat
    decreases k,
{
    if k == 0 {
        1
    } else {
        10 * pow10((k - 1) as nat)
    }
}

proof fn lemma_decimal_len(n: nat, k: nat)
    requires
        1 <= k,
        n < pow10(k),
    ensures
        decimal(n).len() <= k,
    decreases n,
{
    if n >= 10 {
        let p = pow10((k - 1) as nat);
        if k == 1 {
            assert(false);
        }
        assert(n / 10 < p) by (nonlinear_arith)
            requires
                n < 10 * p,
        ;
        lemma_decimal_len(n / 10, (k - 1) as nat);
    }
}

proof fn lemma_decimal_len_u64(n: u64)
    ensures
        decimal(n as nat).len() <= 20,
{
    reveal_with_fuel(pow10, 21);
    assert(pow10(20) == 100000000000000000000nat);
    lemma_decimal_len(n as nat, 20);
}

/// Appends `n` in decimal, with zeros in front up to `width` characters.
fn push_padded(s: &mut String, n: u64, width: usize)
    ensures
        final(s)@ == old(s)@ + zero_padded(decimal(n as nat), width as nat),
{
    let k = decimal_len(n);
    let pad: usize = if k < width {
        width - k
    } else {
        0
    };
    let ghost s0 = s@;
    let mut j: usize = 0;
    while j < pad
        invariant
            j <= pad,
            s@ == s0 + Seq::new(j as nat, |_i: int| '0'),
        decreases pad - j,
    {
        push_char(s, '0');
        j = j + 1;
        assert(s@ =~= s0 + Seq::new(j as nat, |_i: int| '0'));
    }
    push_decimal(s, n);
    assert(s@ =~= s0 + zero_padded(decimal(n as nat), width as nat));
}

/// Writes calendar fields as `YYYY-MM-DD HH:MM`: the year zero-padded to four characters with
/// its sign counted, the other fields to two digits.
pub fn utc_layout_text(year: i32, month: u8, day: u8, hour: u8, minute: u8) -> (r: String)
    ensures
        r@ == utc_layout(year as int, month as nat, day as nat, hour as nat, minute as nat),
{
    let mut s = String::new();
    if year >= 0 {
        push_padded(&mut s, year as u64, 4);
    } else {
        push_char(&mut s, '-');
        let a: i64 = -(year as i64);
        push_padded(&mut s, a as u64, 3);
    }
    push_char(&mut s, '-');
    push_padded(&mut s, month as u64, 2);
    push_char(&mut s, '-');
    push_padded(&mut s, day as u64, 2);
    push_char(&mut s, ' ');
    push_padded(&mut s, hour as u64, 2);
    push_char(&mut s, ':');
    push_padded(&mut s, minute as u64, 2);
    assert(s@ =~= utc_layout(year as int, month as nat, day as nat, hour as nat, minute as nat));
    s
}

/// A timestamp's UTC time as `YYYY-MM-DD HH:MM`; a timestamp `time` cannot represent is shown
/// as the epoch.
pub fn format_time_utc(unix: i64) -> (r: String)
    ensures
        r@ == utc_display(utc_fields(unix)),
{
    match utc_fields_of(unix) {
        Some(f) => utc_layout_text(f.0, f.1, f.2, f.3, f.4),
        None => utc_layout_text(1970, 1, 1, 0, 0),
    }
}

/// A timestamp for display: nothing for a timestamp that is not after the epoch; otherwise the
/// local time where the platform gave one (`local`), else the UTC time.
pub open spec fn time_text(unix: i64, local: Option<Seq<char>>) -> Seq<char> {
    if unix <= 0 {
        Seq::empty()
    } else {
        match local {
            Some(l) => l,
            None => utc_display(utc_fields(unix)),
        }
    }
}

/// Formats `unix` for display; `local` is the local-time text that the platform gave for it,
/// where it gave one.
pub fn format_time(unix: i64, local: Option<String>) -> (r: String)
    ensures
        r@ == time_text(
            unix,
            match local {
                Some(l) => Some(l@),
                None => None,
            },
        ),
{
    if unix <= 0 {
        return String::new();
    }
    match local {
        Some(l) => l,
        None => format_time_utc(unix),
    }
}

} // verus!
