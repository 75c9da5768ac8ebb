use crate::numtext::{all_dec_digits, dec_digit_of, dec_value};
use crate::timestamp::first_dot;
use crate::tokens::{tokens_of, TokenCursor};
use vstd::prelude::*;

verus! {

// The optional absolute-start-time header of a trace:
//
//     date <weekday> <month> <day> <HH:MM:SS.mmm> <am|pm> <year>
//
// Only a line of exactly that shape establishes the start time. The parsed
// value is kept as plain civil fields; weekday and calendar-day consistency
// are checked here, so a stored value always names a real date.

/// A civil (timezone-less) date-time with millisecond precision.
#[derive(Clone, Copy, Debug, PartialEq, Eq, Structural, Hash)]
pub struct CivilTime {
    pub year: u16,
    pub month: u8,
    pub day: u8,
    pub hour: u8,
    pub minute: u8,
    pub second: u8,
    pub milli: u16,
}

pub open spec fn is_leap_year(y: int) -> bool {
    y % 4 == 0 && (y % 100 != 0 || y % 400 == 0)
}

pub open spec fn days_in_month(y: int, m: int) -> int {
    if m == 2 {
        if is_leap_year(y) {
            29
        } else {
            28
        }
    } else if m == 4 || m == 6 || m == 9 || m == 11 {
        30
    } else {
        31
    }
}

impl CivilTime {
    /// The fields name a real calendar date and time of day.
    pub open spec fn wf(self) -> bool {
        &&& 1 <= self.year <= 9999
        &&& 1 <= self.month <= 12
        &&& 1 <= self.day <= days_in_month(self.year as int, self.month as int)
        &&& self.hour <= 23
        &&& self.minute <= 59
        &&& self.second <= 59
        &&& self.milli <= 999
    }
}

/// The absolute start time of a trace: the raw header text after the
/// keyword, and the parsed value when a header was found.
pub struct AbsoluteTime {
    pub text: String,
    pub value: Option<CivilTime>,
}

impl Default for AbsoluteTime {
    fn default() -> (r: Self)
        ensures
            r.text@ == Seq::<char>::empty(),
            r.value is None,
    {
        AbsoluteTime { text: String::new(), value: None }
    }
}

impl AbsoluteTime {
    /// Well-formed: a stored value names a real date.
    pub open spec fn wf(self) -> bool {
        self.value matches Some(v) ==> v.wf()
    }

    /// Forgets any stored start time.
    pub fn clear(&mut self)
        ensures
            final(self).text@ == Seq::<char>::empty(),
            final(self).value is None,
    {
        self.text = String::new();
        self.value = None;
    }
}

/// `c` lowered to ASCII lower case; other characters unchanged.
pub open spec fn lower_char(c: char) -> char {
    if 'A' <= c && c <= 'Z' {
        ((c as u8) + 32) as char
    } else {
        c
    }
}

pub open spec fn lower_seq(s: Seq<char>) -> Seq<char> {
    s.map_values(|c: char| lower_char(c))
}

/// Weekday number (0 = Sunday) named by a token, case-insensitively;
/// abbreviated and full English names are accepted.
pub open spec fn weekday_of_token(t: Seq<char>) -> Option<int> {
    let l = lower_seq(t);
    if l == "sun"@ || l == "sunday"@ {
        Some(0)
    } else if l == "mon"@ || l == "monday"@ {
        Some(1)
    } else if l == "tue"@ || l == "tuesday"@ {
        Some(2)
    } else if l == "wed"@ || l == "wednesday"@ {
        Some(3)
    } else if l == "thu"@ || l == "thursday"@ {
        Some(4)
    } else if l == "fri"@ || l == "friday"@ {
        Some(5)
    } else if l == "sat"@ || l == "saturday"@ {
        Some(6)
    } else {
        None
    }
}

/// Month number named by a token, case-insensitively; abbreviated and full
/// English names are accepted.
pub open spec fn month_of_token(t: Seq<char>) -> Option<int> {
    let l = lower_seq(t);
    if l == "jan"@ || l == "january"@ {
        Some(1)
    } else if l == "feb"@ || l == "february"@ {
        Some(2)
    } else if l == "mar"@ || l == "march"@ {
        Some(3)
    } else if l == "apr"@ || l == "april"@ {
        Some(4)
    } else if l == "may"@ {
        Some(5)
    } else if l == "jun"@ || l == "june"@ {
        Some(6)
    } else if l == "jul"@ || l == "july"@ {
        Some(7)
    } else if l == "aug"@ || l == "august"@ {
        Some(8)
    } else if l == "sep"@ || l == "september"@ {
        Some(9)
    } else if l == "oct"@ || l == "october"@ {
        Some(10)
    } else if l == "nov"@ || l == "november"@ {
        Some(11)
    } else if l == "dec"@ || l == "december"@ {
        Some(12)
    } else {
        None
    }
}

/// Whether a token is `am` or `pm`, case-insensitively; `true` for `pm`.
pub open spec fn ampm_of_token(t: Seq<char>) -> Option<bool> {
    let l = lower_seq(t);
    if l == "am"@ {
        Some(false)
    } else if l == "pm"@ {
        Some(true)
    } else {
        None
    }
}

/// A run of 1 to `maxlen` decimal digits, as a number.
pub open spec fn plain_dec(t: Seq<char>, maxlen: int) -> Option<int> {
    if 1 <= t.len() <= maxlen && all_dec_digits(t) {
        Some(dec_value(t))
    } else {
        None
    }
}

/// Index of the first `:` in `s`, or `s.len()` if there is none.
pub open spec fn first_colon(s: Seq<char>) -> nat
    decreases s.len(),
{
    if s.len() == 0 || s[0] == ':' {
        0
    } else {
        1 + first_colon(s.skip(1))
    }
}

/// The `(hour12, minute, second, milli)` of a `HH:MM:SS[.mmm]` token, if it
/// has that shape with an hour of 1 to 12.
pub open spec fn time_of_token(t: Seq<char>) -> Option<(int, int, int, int)> {
    let c1 = first_colon(t) as int;
    if c1 < t.len() {
        let rest1 = t.skip(c1 + 1);
        let c2 = first_colon(rest1) as int;
        if c2 < rest1.len() {
            let rest2 = rest1.skip(c2 + 1);
            let dot = first_dot(rest2) as int;
            let h = plain_dec(t.take(c1), 2);
            let mi = plain_dec(rest1.take(c2), 2);
            let se = plain_dec(rest2.take(dot), 2);
            let ms = if dot == rest2.len() {
                Some(0int)
            } else {
                plain_dec3(rest2.skip(dot + 1))
            };
            match (h, mi, se, ms) {
                (Some(hv), Some(miv), Some(sev), Some(msv)) => {
                    if 1 <= hv <= 12 && miv <= 59 && sev <= 59 {
                        Some((hv, miv, sev, msv))
                    } else {
                        None
                    }
                },
                _ => None,
            }
        } else {
            None
        }
    } else {
        None
    }
}

/// Exactly three decimal digits, as a number.
pub open spec fn plain_dec3(t: Seq<char>) -> Option<int> {
    if t.len() == 3 && all_dec_digits(t) {
        Some(dec_value(t))
    } else {
        None
    }
}

/// Offsets of Sakamoto's day-of-week formula, by month.
pub open spec fn weekday_month_offset(m: int) -> int {
    if m == 1 {
        0
    } else if m == 2 {
        3
    } else if m == 3 {
        2
    } else if m == 4 {
        5
    } else if m == 5 {
        0
    } else if m == 6 {
        3
    } else if m == 7 {
        5
    } else if m == 8 {
        1
    } else if m == 9 {
        4
    } else if m == 10 {
        6
    } else if m == 11 {
        2
    } else {
        4
    }
}

/// Day of the week (0 = Sunday) of a Gregorian date with year at least 1,
/// by Sakamoto's formula.
pub open spec fn weekday_of_date(y: int, m: int, d: int) -> int {
    let yy = if m < 3 {
        y - 1
    } else {
        y
    };
    (yy + yy / 4 - yy / 100 + yy / 400 + weekday_month_offset(m) + d) % 7
}

/// The 24-hour hour of a 12-hour clock reading.
pub open spec fn hour24_of(h12: int, pm: bool) -> int {
    if pm {
        if h12 == 12 {
            12
        } else {
            h12 + 12
        }
    } else {
        if h12 == 12 {
            0
        } else {
            h12
        }
    }
}

/// The start time named by one header line, if the line is a header: the
/// keyword `date`, then weekday, month name, day, 12-hour time, am/pm and
/// year, where the date is real and the weekday agrees with it.
pub open spec fn header_value(line: Seq<char>) -> Option<CivilTime> {
    let toks = tokens_of(line);
    if toks.len() == 7 && toks[0] == "date"@ {
        header_fields(toks)
    } else {
        None
    }
}

pub open spec fn header_fields(toks: Seq<Seq<char>>) -> Option<CivilTime> {
    let wd = weekday_of_token(toks[1]);
    let mo = month_of_token(toks[2]);
    let d = plain_dec(toks[3], 2);
    let tm = time_of_token(toks[4]);
    let ap = ampm_of_token(toks[5]);
    let y = plain_dec(toks[6], 4);
    match (wd, mo, d, tm, ap, y) {
        (Some(wdv), Some(mov), Some(dv), Some(tmv), Some(apv), Some(yv)) => {
            if 1 <= yv && 1 <= dv && dv <= days_in_month(yv, mov) && weekday_of_date(yv, mov, dv)
                == wdv {
                Some(
                    CivilTime {
                        year: yv as u16,
                        month: mov as u8,
                        day: dv as u8,
                        hour: hour24_of(tmv.0, apv) as u8,
                        minute: tmv.1 as u8,
                        second: tmv.2 as u8,
                        milli: tmv.3 as u16,
                    },
                )
            } else {
                None
            }
        },
        _ => None,
    }
}

/// The header tokens after the keyword, re-joined with single spaces:
/// tokens `1 .. i` of the line.
pub open spec fn joined_upto(toks: Seq<Seq<char>>, i: int) -> Seq<char>
    decreases i,
{
    if i <= 1 {
        Seq::empty()
    } else if i == 2 {
        toks[1]
    } else {
        joined_upto(toks, i - 1) + seq![' '] + toks[i - 1]
    }
}

/// Whether two strings hold the same characters.
pub fn str_eq(a: &str, b: &str) -> (r: bool)
    ensures
        r == (a@ == b@),
{
    let n: usize = a.unicode_len();
    if n != b.unicode_len() {
        return false;
    }
    let mut i: usize = 0;
    while i < n
        invariant
            i <= n,
            n == a@.len(),
            n == b@.len(),
            forall|j: int| 0 <= j < i ==> a@[j] == b@[j],
        decreases n - i,
    {
        if a.get_char(i) != b.get_char(i) {
            return false;
        }
        i = i + 1;
    }
    proof {
        assert(a@ =~= b@);
    }
    true
}

fn lower_char_exec(c: char) -> (r: char)
    ensures
        r == lower_char(c),
{
    if 'A' <= c && c <= 'Z' {
        ((c as u8) + 32) as char
    } else {
        c
    }
}

/// `s` lowered to ASCII lower case, character by character.
pub fn ascii_lower_string(s: &str) -> (r: String)
    ensures
        r@ == lower_seq(s@),
{
    let n: usize = s.unicode_len();
    let mut out = String::new();
    let mut i: usize = 0;
    while i < n
        invariant
            i <= n,
            n == s@.len(),
            out@ == lower_seq(s@.take(i as int)),
        decreases n - i,
    {
        let c = s.get_char(i);
        out.push(lower_char_exec(c));
        proof {
            assert(lower_seq(s@.take(i + 1)) =~= lower_seq(s@.take(i as int)).push(
                lower_char(s@[i as int]),
            ));
        }
        i = i + 1;
    }
    proof {
        assert(s@.take(n as int) =~= s@);
    }
    out
}

/// Parse a run of 1 to `maxlen` decimal digits, exactly per [`plain_dec`].
pub fn parse_plain_dec(t: &str, maxlen: usize) -> (r: Option<u16>)
    requires
        1 <= maxlen <= 4,
    ensures
        r matches Some(v) ==> plain_dec(t@, maxlen as int) == Some(v as int),
        r is None ==> plain_dec(t@, maxlen as int) is None,
{
    let n: usize = t.unicode_len();
    if n == 0 || n > maxlen {
        return None;
    }
    let mut acc: u16 = 0;
    let mut i: usize = 0;
    while i < n
        invariant
            i <= n,
            n == t@.len(),
            1 <= n <= 4,
            all_dec_digits(t@.take(i as int)),
            acc == dec_value(t@.take(i as int)),
            acc < 10000,
        decreases n - i,
    {
        let c = t.get_char(i);
        let d = match dec_digit_of(c) {
            Some(d) => d,
            None => {
                return None;
            },
        };
        proof {
            assert(t@.take(i + 1).drop_last() =~= t@.take(i as int));
            assert(t@.take(i + 1).last() == t@[i as int]);
            crate::timestamp::lemma_dec_value_lt_pow10(t@.take(i as int));
            crate::timestamp::lemma_pow10_bound(i as nat);
            crate::timestamp::lemma_pow10_mono(i as nat, 3);
            reveal_with_fuel(crate::timestamp::pow10, 5);
        }
        acc = acc * 10 + (d as u16);
        i = i + 1;
    }
    proof {
        assert(t@.take(n as int) =~= t@);
    }
    Some(acc)
}

/// Find the first `:` at or after `from`.
fn find_colon(t: &str, from: usize) -> (r: usize)
    requires
        from <= t@.len(),
    ensures
        from <= r <= t@.len(),
        r - from == first_colon(t@.skip(from as int)),
{
    let n: usize = t.unicode_len();
    let mut i: usize = from;
    while i < n && t.get_char(i) != ':'
        invariant
            from <= i <= n,
            n == t@.len(),
            forall|j: int| from <= j < i ==> t@[j] != ':',
        decreases n - i,
    {
        i = i + 1;
    }
    proof {
        lemma_first_colon_run(t@, from as int, i as int);
    }
    i
}

proof fn lemma_first_colon_run(s: Seq<char>, start: int, end: int)
    requires
        0 <= start <= end <= s.len(),
        forall|j: int| start <= j < end ==> s[j] != ':',
        end < s.len() ==> s[end] == ':',
    ensures
        first_colon(s.skip(start)) == end - start,
    decreases end - start,
{
    let suf = s.skip(start);
    if start == end {
        if end < s.len() {
            assert(suf[0] == ':');
        }
    } else {
        assert(suf[0] == s[start]);
        lemma_first_colon_run(s, start + 1, end);
        assert(suf.skip(1) =~= s.skip(start + 1));
    }
}

/// Find the first `.` at or after `from`.
fn find_dot(t: &str, from: usize) -> (r: usize)
    requires
        from <= t@.len(),
    ensures
        from <= r <= t@.len(),
        r - from == first_dot(t@.skip(from as int)),
{
    let n: usize = t.unicode_len();
    let mut i: usize = from;
    while i < n && t.get_char(i) != '.'
        invariant
            from <= i <= n,
            n == t@.len(),
            forall|j: int| from <= j < i ==> t@[j] != '.',
        decreases n - i,
    {
        i = i + 1;
    }
    proof {
        lemma_first_dot_run(t@, from as int, i as int);
    }
    i
}

proof fn lemma_first_dot_run(s: Seq<char>, start: int, end: int)
    requires
        0 <= start <= end <= s.len(),
        forall|j: int| start <= j < end ==> s[j] != '.',
        end < s.len() ==> s[end] == '.',
    ensures
        first_dot(s.skip(start)) == end - start,
    decreases end - start,
{
    let suf = s.skip(start);
    if start == end {
        if end < s.len() {
            assert(suf[0] == '.');
        }
    } else {
        assert(suf[0] == s[start]);
        lemma_first_dot_run(s, start + 1, end);
        assert(suf.skip(1) =~= s.skip(start + 1));
    }
}

/// Parse a `HH:MM:SS[.mmm]` token, exactly per [`time_of_token`].
pub fn parse_time_token(t: &str) -> (r: Option<(u8, u8, u8, u16)>)
    ensures
        r matches Some(v) ==> time_of_token(t@) == Some(
            (v.0 as int, v.1 as int, v.2 as int, v.3 as int),
        ),
        r is None ==> time_of_token(t@) is None,
{
    let n: usize = t.unicode_len();
    let c1: usize = find_colon(t, 0);
    proof {
        assert(t@.skip(0) =~= t@);
    }
    if c1 == n {
        return None;
    }
    let c2: usize = find_colon(t, c1 + 1);
    let ghost rest1 = t@.skip(c1 + 1);
    if c2 == n {
        proof {
            assert(first_colon(rest1) == rest1.len());
        }
        return None;
    }
    let dotp: usize = find_dot(t, c2 + 1);
    let ghost rest2 = t@.skip(c2 + 1);
    proof {
        assert(first_colon(rest1) == c2 - (c1 + 1));
        assert(rest1.skip(c2 - (c1 + 1) + 1) =~= rest2);
        assert(first_dot(rest2) == dotp - (c2 + 1));
    }

    let h_str = t.substring_char(0, c1);
    proof {
        assert(h_str@ =~= t@.take(c1 as int));
    }
    let h = match parse_plain_dec(h_str, 2) {
        Some(v) => v,
        None => {
            return None;
        },
    };
    let m_str = t.substring_char(c1 + 1, c2);
    proof {
        assert(m_str@ =~= rest1.take(c2 - (c1 + 1)));
    }
    let mi = match parse_plain_dec(m_str, 2) {
        Some(v) => v,
        None => {
            return None;
        },
    };
    let s_str = t.substring_char(c2 + 1, dotp);
    proof {
        assert(s_str@ =~= rest2.take(dotp - (c2 + 1)));
    }
    let se = match parse_plain_dec(s_str, 2) {
        Some(v) => v,
        None => {
            return None;
        },
    };
    let ms: u16 = if dotp == n {
        0
    } else {
        let ms_str = t.substring_char(dotp + 1, n);
        proof {
            assert(ms_str@ =~= rest2.skip(dotp - (c2 + 1) + 1));
        }
        if ms_str.unicode_len() != 3 {
            proof {
                assert(plain_dec3(ms_str@) is None);
            }
            return None;
        }
        match parse_plain_dec(ms_str, 3) {
            Some(v) => v,
            None => {
                proof {
                    assert(plain_dec(ms_str@, 3) is None);
                    assert(plain_dec3(ms_str@) is None);
                }
                return None;
            },
        }
    };
    if 1 <= h && h <= 12 && mi <= 59 && se <= 59 {
        Some((h as u8, mi as u8, se as u8, ms))
    } else {
        None
    }
}

/// The weekday number a token names, exactly per [`weekday_of_token`].
pub fn parse_weekday_token(t: &str) -> (r: Option<u8>)
    ensures
        r matches Some(v) ==> weekday_of_token(t@) == Some(v as int),
        r is None ==> weekday_of_token(t@) is None,
{
    let low = ascii_lower_string(t);
    let l = low.as_str();
    if str_eq(l, "sun") || str_eq(l, "sunday") {
        Some(0)
    } else if str_eq(l, "mon") || str_eq(l, "monday") {
        Some(1)
    } else if str_eq(l, "tue") || str_eq(l, "tuesday") {
        Some(2)
    } else if str_eq(l, "wed") || str_eq(l, "wednesday") {
        Some(3)
    } else if str_eq(l, "thu") || str_eq(l, "thursday") {
        Some(4)
    } else if str_eq(l, "fri") || str_eq(l, "friday") {
        Some(5)
    } else if str_eq(l, "sat") || str_eq(l, "saturday") {
        Some(6)
    } else {
        None
    }
}

/// The month number a token names, exactly per [`month_of_token`].
pub fn parse_month_token(t: &str) -> (r: Option<u8>)
    ensures
        r matches Some(v) ==> month_of_token(t@) == Some(v as int),
        r is None ==> month_of_token(t@) is None,
{
    let low = ascii_lower_string(t);
    let l = low.as_str();
    if str_eq(l, "jan") || str_eq(l, "january") {
        Some(1)
    } else if str_eq(l, "feb") || str_eq(l, "february") {
        Some(2)
    } else if str_eq(l, "mar") || str_eq(l, "march") {
        Some(3)
    } else if str_eq(l, "apr") || str_eq(l, "april") {
        Some(4)
    } else if str_eq(l, "may") {
        Some(5)
    } else if str_eq(l, "jun") || str_eq(l, "june") {
        Some(6)
    } else if str_eq(l, "jul") || str_eq(l, "july") {
        Some(7)
    } else if str_eq(l, "aug") || str_eq(l, "august") {
        Some(8)
    } else if str_eq(l, "sep") || str_eq(l, "september") {
        Some(9)
    } else if str_eq(l, "oct") || str_eq(l, "october") {
        Some(10)
    } else if str_eq(l, "nov") || str_eq(l, "november") {
        Some(11)
    } else if str_eq(l, "dec") || str_eq(l, "december") {
        Some(12)
    } else {
        None
    }
}

/// Whether a token is `am` or `pm`, exactly per [`ampm_of_token`].
pub fn parse_ampm_token(t: &str) -> (r: Option<bool>)
    ensures
        r matches Some(v) ==> ampm_of_token(t@) == Some(v),
        r is None ==> ampm_of_token(t@) is None,
{
    let low = ascii_lower_string(t);
    let l = low.as_str();
    if str_eq(l, "am") {
        Some(false)
    } else if str_eq(l, "pm") {
        Some(true)
    } else {
        None
    }
}

fn weekday_month_offset_exec(m: u8) -> (r: u8)
    requires
        1 <= m <= 12,
    ensures
        r as int == weekday_month_offset(m as int),
{
    if m == 1 {
        0
    } else if m == 2 {
        3
    } else if m == 3 {
        2
    } else if m == 4 {
        5
    } else if m == 5 {
        0
    } else if m == 6 {
        3
    } else if m == 7 {
        5
    } else if m == 8 {
        1
    } else if m == 9 {
        4
    } else if m == 10 {
        6
    } else if m == 11 {
        2
    } else {
        4
    }
}

/// Day of the week of a Gregorian date, exactly per [`weekday_of_date`].
pub fn weekday_of_date_exec(y: u16, m: u8, d: u8) -> (r: u8)
    requires
        1 <= y,
        1 <= m <= 12,
        d <= 31,
    ensures
        r as int == weekday_of_date(y as int, m as int, d as int),
{
    let yy: u32 = if m < 3 {
        (y - 1) as u32
    } else {
        y as u32
    };
    let off: u32 = weekday_month_offset_exec(m) as u32;
    let sum: u32 = yy + yy / 4 - yy / 100 + yy / 400 + off + (d as u32);
    (sum % 7) as u8
}

fn is_leap_year_exec(y: u16) -> (r: bool)
    ensures
        r == is_leap_year(y as int),
{
    y % 4 == 0 && (y % 100 != 0 || y % 400 == 0)
}

/// Length of a month, exactly per [`days_in_month`].
pub fn days_in_month_exec(y: u16, m: u8) -> (r: u8)
    ensures
        r as int == days_in_month(y as int, m as int),
{
    if m == 2 {
        if is_leap_year_exec(y) {
            29
        } else {
            28
        }
    } else if m == 4 || m == 6 || m == 9 || m == 11 {
        30
    } else {
        31
    }
}

/// Recognize and parse one absolute-start-time header line, exactly per
/// [`header_value`]; the returned record also keeps the header text after
/// the keyword, re-joined with single spaces.
pub fn from_line(line: &str) -> (r: Option<AbsoluteTime>)
    ensures
        r matches Some(at) ==> {
            &&& header_value(line@) is Some
            &&& at.value == header_value(line@)
            &&& at.text@ == joined_upto(tokens_of(line@), 7)
            &&& at.wf()
        },
        r is None ==> header_value(line@) is None,
{
    let ghost toks = tokens_of(line@);
    let mut cur = TokenCursor::new(line);
    let t0 = match cur.next() {
        Some(t) => t,
        None => {
            return None;
        },
    };
    let t1 = match cur.next() {
        Some(t) => t,
        None => {
            return None;
        },
    };
    let t2 = match cur.next() {
        Some(t) => t,
        None => {
            return None;
        },
    };
    let t3 = match cur.next() {
        Some(t) => t,
        None => {
            return None;
        },
    };
    let t4 = match cur.next() {
        Some(t) => t,
        None => {
            return None;
        },
    };
    let t5 = match cur.next() {
        Some(t) => t,
        None => {
            return None;
        },
    };
    let t6 = match cur.next() {
        Some(t) => t,
        None => {
            return None;
        },
    };
    match cur.next() {
        Some(_) => {
            return None;
        },
        None => {},
    };
    proof {
        assert(toks.len() == 7);
        assert(toks[0] == t0@ && toks[1] == t1@ && toks[2] == t2@ && toks[3] == t3@ && toks[4]
            == t4@ && toks[5] == t5@ && toks[6] == t6@);
    }
    if !str_eq(t0, "date") {
        return None;
    }
    let wd = match parse_weekday_token(t1) {
        Some(v) => v,
        None => {
            return None;
        },
    };
    let mo = match parse_month_token(t2) {
        Some(v) => v,
        None => {
            return None;
        },
    };
    let d = match parse_plain_dec(t3, 2) {
        Some(v) => v,
        None => {
            return None;
        },
    };
    let tm = match parse_time_token(t4) {
        Some(v) => v,
        None => {
            return None;
        },
    };
    let ap = match parse_ampm_token(t5) {
        Some(v) => v,
        None => {
            return None;
        },
    };
    let y = match parse_plain_dec(t6, 4) {
        Some(v) => v,
        None => {
            return None;
        },
    };
    proof {
        lemma_dec_bounds(t3@, 2);
        lemma_dec_bounds(t6@, 4);
        reveal_with_fuel(crate::timestamp::pow10, 5);
    }
    if !(1 <= y && 1 <= d) {
        return None;
    }
    if d as u8 > days_in_month_exec(y, mo) {
        return None;
    }
    if weekday_of_date_exec(y, mo, d as u8) != wd {
        return None;
    }
    let hour: u8 = if ap {
        if tm.0 == 12 {
            12
        } else {
            tm.0 + 12
        }
    } else {
        if tm.0 == 12 {
            0
        } else {
            tm.0
        }
    };
    let value = CivilTime {
        year: y,
        month: mo,
        day: d as u8,
        hour,
        minute: tm.1,
        second: tm.2,
        milli: tm.3,
    };
    proof {
        lemma_dec3_bound(t4@);
        assert(header_fields(toks) == Some(value));
    }
    let mut text = String::new();
    text.append(t1);
    text.append(" ");
    text.append(t2);
    text.append(" ");
    text.append(t3);
    text.append(" ");
    text.append(t4);
    text.append(" ");
    text.append(t5);
    text.append(" ");
    text.append(t6);
    proof {
        reveal_strlit(" ");
        reveal_with_fuel(joined_upto, 8);
        assert(text@ =~= joined_upto(toks, 7));
    }
    Some(AbsoluteTime { text, value: Some(value) })
}

/// `plain_dec` with a length cap stays under ten to that cap.
proof fn lemma_dec_bounds(t: Seq<char>, maxlen: int)
    requires
        1 <= maxlen <= 4,
    ensures
        plain_dec(t, maxlen) matches Some(v) ==> 0 <= v < crate::timestamp::pow10(maxlen as nat),
{
    if plain_dec(t, maxlen) is Some {
        crate::numtext::lemma_dec_value_nonneg(t);
        crate::timestamp::lemma_dec_value_lt_pow10(t);
        crate::timestamp::lemma_pow10_mono(t.len() as nat, maxlen as nat);
    }
}

/// The millisecond field of a parsed time token stays under 1000.
proof fn lemma_dec3_bound(t: Seq<char>)
    ensures
        time_of_token(t) matches Some(v) ==> 0 <= v.3 <= 999,
{
    if time_of_token(t) is Some {
        let c1 = first_colon(t) as int;
        let rest1 = t.skip(c1 + 1);
        let c2 = first_colon(rest1) as int;
        let rest2 = rest1.skip(c2 + 1);
        let dot = first_dot(rest2) as int;
        if dot != rest2.len() {
            let f = rest2.skip(dot + 1);
            if plain_dec3(f) is Some {
                crate::numtext::lemma_dec_value_nonneg(f);
                crate::timestamp::lemma_dec_value_lt_pow10(f);
                reveal_with_fuel(crate::timestamp::pow10, 5);
            }
        }
    }
}

} // verus!
