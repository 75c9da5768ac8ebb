use chrono::Datelike;
use chrono::Timelike;
use vstd::prelude::*;

verus! {

// The few places where this library leans on code it does not verify: one
// method of std's `String` that vstd leaves unspecified, and chrono's
// calendar arithmetic.

/// Relies on `String::push`: appends one character to the end of the string.
pub assume_specification[ String::push ](s: &mut String, c: char)
    ensures
        final(s)@ == old(s)@.push(c),
;

/// Relies on `String::clear`: empties the string, keeping its allocation.
pub assume_specification[ String::clear ](s: &mut String)
    ensures
        final(s)@ == Seq::<char>::empty(),
;

/// The calendar sum that chrono computes for `NaiveDateTime`
/// `checked_add_signed`: the date-time `delta_ms` milliseconds after the
/// civil date-time `(y, mo, d, h, mi, s, ms)`, as plain fields
/// `(year, month, day, hour, minute, second, millisecond)`, or `None` when
/// the inputs do not name a real date-time or the sum leaves chrono's range.
pub uninterp spec fn civil_sum(
    y: int,
    mo: int,
    d: int,
    h: int,
    mi: int,
    s: int,
    ms: int,
    delta_ms: int,
) -> Option<(int, int, int, int, int, int, int)>;

/// Relies on chrono's `NaiveDate::from_ymd_opt`, `NaiveDate::and_hms_milli_opt`,
/// `NaiveDateTime::checked_add_signed` and `TimeDelta::try_milliseconds` to add
/// a millisecond count to a civil date-time; the result depends on the
/// arguments alone. The field ranges of the result are those chrono documents
/// for its accessors (`timestamp_subsec_millis` may reach 1999 on a leap
/// second), and adding a non-negative delta never moves the year below the
/// start year.
#[verifier::external_body]
pub fn add_millis_to_civil(
    y: i32,
    mo: u32,
    d: u32,
    h: u32,
    mi: u32,
    s: u32,
    ms: u32,
    delta_ms: u64,
) -> (r: Option<(i32, u32, u32, u32, u32, u32, u32)>)
    ensures
        r matches Some(t) ==> {
            &&& Some((t.0 as int, t.1 as int, t.2 as int, t.3 as int, t.4 as int, t.5 as int,
                t.6 as int)) == civil_sum(
                y as int,
                mo as int,
                d as int,
                h as int,
                mi as int,
                s as int,
                ms as int,
                delta_ms as int,
            )
            &&& 1 <= t.1 <= 12
            &&& 1 <= t.2 <= 31
            &&& t.3 <= 23
            &&& t.4 <= 59
            &&& t.5 <= 59
            &&& t.6 <= 1999
            &&& y >= 0 ==> t.0 >= 0
        },
        r is None ==> civil_sum(
            y as int,
            mo as int,
            d as int,
            h as int,
            mi as int,
            s as int,
            ms as int,
            delta_ms as int,
        ) is None,
{
    let date = chrono::NaiveDate::from_ymd_opt(y, mo, d)?;
    let start = date.and_hms_milli_opt(h, mi, s, ms)?;
    let delta_signed: i64 = i64::try_from(delta_ms).ok()?;
    let delta = chrono::TimeDelta::try_milliseconds(delta_signed)?;
    let t = start.checked_add_signed(delta)?;
    Some((
        t.year(),
        t.month(),
        t.day(),
        t.hour(),
        t.minute(),
        t.second(),
        t.and_utc().timestamp_subsec_millis(),
    ))
}

} // verus!
