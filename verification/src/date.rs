//! Calendar dates and their fixed `YYYY-MM-DD` text form.
//!
//! A use of a clothing item is recorded as a calendar date.  Dates enter the
//! library only as text in the fixed dash-separated form (four-digit year,
//! two-digit month, two-digit day); parsing validates the calendar (month
//! range, month length, leap years) and is proved inverse to formatting.

use vstd::prelude::*;

verus! {

/// A calendar date: year, month and day, with no time component.
#[derive(Clone, Copy, PartialEq, Eq, Structural, Debug)]
pub struct Date {
    pub year: u32,
    pub month: u32,
    pub day: u32,
}

pub open spec fn is_leap_year(y: int) -> bool {
    (y % 4 == 0 && y % 100 != 0) || y % 400 == 0
}

pub open spec fn days_in_month(y: int, m: int) -> int {
    if m == 2 {
        if is_leap_year(y) {
            29
        } else {
            28
        }
    } else if m == 4 || m == 6 || m == 9 || m == 11 {
        30
    } else {
        31
    }
}

impl Date {
    /// A valid calendar date whose year fits in four digits.
    pub open spec fn wf(self) -> bool {
        &&& self.year <= 9999
        &&& 1 <= self.month <= 12
        &&& 1 <= self.day <= days_in_month(self.year as int, self.month as int)
    }
}

pub open spec fn is_digit(c: char) -> bool {
    48 <= c as u32 && c as u32 <= 57
}

pub open spec fn digit_val(c: char) -> int {
    c as u32 - 48
}

pub open spec fn digit_char(n: int) -> char {
    if n == 0 {
        '0'
    } else if n == 1 {
        '1'
    } else if n == 2 {
        '2'
    } else if n == 3 {
        '3'
    } else if n == 4 {
        '4'
    } else if n == 5 {
        '5'
    } else if n == 6 {
        '6'
    } else if n == 7 {
        '7'
    } else if n == 8 {
        '8'
    } else {
        '9'
    }
}

pub proof fn lemma_digit_char_val(n: int)
    requires
        0 <= n <= 9,
    ensures
        is_digit(digit_char(n)),
        digit_val(digit_char(n)) == n,
{
}

/// The ten characters `YYYY-MM-DD` of a date.
pub open spec fn date_chars(d: Date) -> Seq<char> {
    seq![
        digit_char(d.year as int / 1000),
        digit_char((d.year as int / 100) % 10),
        digit_char((d.year as int / 10) % 10),
        digit_char(d.year as int % 10),
        '-',
        digit_char(d.month as int / 10),
        digit_char(d.month as int % 10),
        '-',
        digit_char(d.day as int / 10),
        digit_char(d.day as int % 10),
    ]
}

/// Reads a date from the first ten characters of `s`: the fixed
/// dash-separated form, and the calendar must accept it.
pub open spec fn date10_of(s: Seq<char>) -> Option<Date> {
    if s.len() >= 10 && is_digit(s[0]) && is_digit(s[1]) && is_digit(s[2]) && is_digit(s[3])
        && s[4] == '-' && is_digit(s[5]) && is_digit(s[6]) && s[7] == '-' && is_digit(s[8])
        && is_digit(s[9]) {
        let d = Date {
            year: (digit_val(s[0]) * 1000 + digit_val(s[1]) * 100 + digit_val(s[2]) * 10
                + digit_val(s[3])) as u32,
            month: (digit_val(s[5]) * 10 + digit_val(s[6])) as u32,
            day: (digit_val(s[8]) * 10 + digit_val(s[9])) as u32,
        };
        if d.wf() {
            Some(d)
        } else {
            None
        }
    } else {
        None
    }
}

/// A date read from a whole string: exactly ten characters, nothing after.
pub open spec fn date_of_str(s: Seq<char>) -> Option<Date> {
    if s.len() == 10 {
        date10_of(s)
    } else {
        None
    }
}

/// Formatting a valid date and parsing the result gives the date back,
/// whatever follows it.
pub proof fn lemma_date_chars_parse(d: Date, rest: Seq<char>)
    requires
        d.wf(),
    ensures
        date_chars(d).len() == 10,
        date10_of(date_chars(d) + rest) == Some(d),
        (date_chars(d) + rest).skip(10) =~= rest,
{
    let s = date_chars(d) + rest;
    let y = d.year as int;
    let m = d.month as int;
    let dd = d.day as int;
    lemma_digit_char_val(y / 1000);
    lemma_digit_char_val((y / 100) % 10);
    lemma_digit_char_val((y / 10) % 10);
    lemma_digit_char_val(y % 10);
    lemma_digit_char_val(m / 10);
    lemma_digit_char_val(m % 10);
    lemma_digit_char_val(dd / 10);
    lemma_digit_char_val(dd % 10);
    assert((y / 1000) * 1000 + ((y / 100) % 10) * 100 + ((y / 10) % 10) * 10 + y % 10 == y);
    assert((m / 10) * 10 + m % 10 == m);
    assert((dd / 10) * 10 + dd % 10 == dd);
}

/// The executable digit characters, matching `digit_char`.
pub(crate) fn digit_char_exec(n: u32) -> (c: char)
    requires
        n <= 9,
    ensures
        c == digit_char(n as int),
{
    if n == 0 {
        '0'
    } else if n == 1 {
        '1'
    } else if n == 2 {
        '2'
    } else if n == 3 {
        '3'
    } else if n == 4 {
        '4'
    } else if n == 5 {
        '5'
    } else if n == 6 {
        '6'
    } else if n == 7 {
        '7'
    } else if n == 8 {
        '8'
    } else {
        '9'
    }
}

/// Appends the ten characters of a valid date.
pub(crate) fn push_date_chars(out: &mut Vec<char>, d: &Date)
    requires
        d.wf(),
    ensures
        final(out)@ =~= old(out)@ + date_chars(*d),
{
    out.push(digit_char_exec(d.year / 1000));
    out.push(digit_char_exec((d.year / 100) % 10));
    out.push(digit_char_exec((d.year / 10) % 10));
    out.push(digit_char_exec(d.year % 10));
    out.push('-');
    out.push(digit_char_exec(d.month / 10));
    out.push(digit_char_exec(d.month % 10));
    out.push('-');
    out.push(digit_char_exec(d.day / 10));
    out.push(digit_char_exec(d.day % 10));
}

fn digit_val_exec(c: char) -> (r: Option<u32>)
    ensures
        r is Some <==> is_digit(c),
        r is Some ==> r->0 == digit_val(c) && r->0 <= 9,
{
    let u = c as u32;
    if 48 <= u && u <= 57 {
        Some(u - 48)
    } else {
        None
    }
}

/// Reads a date from the ten characters of `v` starting at `pos`,
/// as `date10_of` does on the corresponding suffix.
pub(crate) fn parse_date_at(v: &Vec<char>, pos: usize) -> (r: Option<Date>)
    requires
        pos <= v@.len(),
    ensures
        r == date10_of(v@.skip(pos as int)),
        r is Some ==> pos + 10 <= v@.len() && r->0.wf(),
{
    let s = Ghost(v@.skip(pos as int));
    if v.len() - pos < 10 {
        return None;
    }
    assert(forall|i: int| 0 <= i < 10 ==> s@[i] == v@[pos + i]);
    let d0 = digit_val_exec(v[pos]);
    let d1 = digit_val_exec(v[pos + 1]);
    let d2 = digit_val_exec(v[pos + 2]);
    let d3 = digit_val_exec(v[pos + 3]);
    let m0 = digit_val_exec(v[pos + 5]);
    let m1 = digit_val_exec(v[pos + 6]);
    let y0 = digit_val_exec(v[pos + 8]);
    let y1 = digit_val_exec(v[pos + 9]);
    if v[pos + 4] != '-' || v[pos + 7] != '-' {
        return None;
    }
    match (d0, d1, d2, d3, m0, m1, y0, y1) {
        (Some(d0), Some(d1), Some(d2), Some(d3), Some(m0), Some(m1), Some(y0), Some(y1)) => {
            let d = Date {
                year: d0 * 1000 + d1 * 100 + d2 * 10 + d3,
                month: m0 * 10 + m1,
                day: y0 * 10 + y1,
            };
            if date_valid_exec(&d) {
                Some(d)
            } else {
                None
            }
        },
        _ => None,
    }
}

/// Whether the fields form a valid calendar date, as `Date::wf` says.
pub fn date_valid_exec(d: &Date) -> (r: bool)
    ensures
        r == d.wf(),
{
    let dim: u32 = if d.month == 2 {
        if (d.year % 4 == 0 && d.year % 100 != 0) || d.year % 400 == 0 {
            29
        } else {
            28
        }
    } else if d.month == 4 || d.month == 6 || d.month == 9 || d.month == 11 {
        30
    } else {
        31
    };
    d.year <= 9999 && 1 <= d.month && d.month <= 12 && 1 <= d.day && d.day <= dim
}

/// Parses a whole string as a date, as `date_of_str` says: the operation
/// that decides whether a use may be recorded.
pub fn parse_date_str(s: &str) -> (r: Option<Date>)
    ensures
        r == date_of_str(s@),
        r is Some ==> r->0.wf(),
{
    let n = s.unicode_len();
    if n != 10 {
        return None;
    }
    let v = crate::text::str_chars(s);
    let r = parse_date_at(&v, 0);
    assert(v@.skip(0) =~= v@);
    r
}

} // verus!
