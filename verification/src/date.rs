use vstd::prelude::*;
use crate::text::{
    bytes_of, decimal, is_ascii_bytes, lemma_ascii_concat, lemma_ascii_valid_utf8, lemma_decimal_ascii,
    push_padded_decimal, push_str, string_from_utf8, zero_padded,
};
use vstd::utf8::{encode_utf8_valid_utf8, valid_utf8, valid_utf8_concat};

verus! {

// ---------------------------------------------------------------------------
// The proleptic Gregorian calendar, stated directly.
// ---------------------------------------------------------------------------

pub open spec fn is_leap_year(y: int) -> bool {
    y % 4 == 0 && (y % 100 != 0 || y % 400 == 0)
}

pub open spec fn days_in_year(y: int) -> int {
    if is_leap_year(y) { 366 } else { 365 }
}

/// Length of month `m` (1 = January .. 12 = December) of year `y`.
pub open spec fn days_in_month(y: int, m: int) -> int {
    if m == 2 {
        if is_leap_year(y) { 29 } else { 28 }
    } else if m == 4 || m == 6 || m == 9 || m == 11 {
        30
    } else {
        31
    }
}

/// Days from 1970-01-01 to the first of January of year `y` (`y >= 1970`).
pub open spec fn days_before_year(y: int) -> int
    decreases y - 1970,
{
    if y <= 1970 { 0 } else { days_before_year(y - 1) + days_in_year(y - 1) }
}

/// Days from the first of January of year `y` to the first day of month `m`.
pub open spec fn days_before_month(y: int, m: int) -> int
    decreases m,
{
    if m <= 1 { 0 } else { days_before_month(y, m - 1) + days_in_month(y, m - 1) }
}

/// A calendar date no earlier than 1970-01-01.
pub open spec fn is_valid_date(y: int, m: int, d: int) -> bool {
    &&& y >= 1970
    &&& 1 <= m <= 12
    &&& 1 <= d <= days_in_month(y, m)
}

/// Days elapsed from 1970-01-01 to the date `y-m-d`.
pub open spec fn day_number(y: int, m: int, d: int) -> int {
    days_before_year(y) + days_before_month(y, m) + d - 1
}

// ---------------------------------------------------------------------------
// Facts about the calendar.
// ---------------------------------------------------------------------------

/// Days from 0000-01-01 to the first of January of year `y`, in closed form.
pub open spec fn days_from_year_zero(y: int) -> int {
    365 * y + (y + 3) / 4 - (y + 99) / 100 + (y + 399) / 400
}

proof fn lemma_days_before_year_closed_form(y: int)
    requires
        y >= 1970,
    ensures
        days_before_year(y) == days_from_year_zero(y) - days_from_year_zero(1970),
    decreases y - 1970,
{
    if y > 1970 {
        lemma_days_before_year_closed_form(y - 1);
    }
}

/// Days from the start of a 400-year era (which begins on 1 March) to the
/// 1 March that opens year `k` of the era, `k < 400`.
pub open spec fn era_year_start(k: int) -> int {
    365 * k + k / 4 - k / 100
}

/// Whether the February that closes March-based year `k` of an era has 29 days.
pub open spec fn era_year_ends_in_leap_february(k: int) -> bool {
    let n = k + 1;
    n % 4 == 0 && (n % 100 != 0 || n % 400 == 0)
}

/// Days from 1 March to the first day of month `mp` of a March-based year
/// (0 = March .. 11 = February).
pub open spec fn march_month_start(mp: int) -> int {
    (153 * mp + 2) / 5
}

proof fn lemma_year_of_era(doe: int)
    requires
        0 <= doe <= 146096,
    ensures
        ({
            let yoe = (doe - doe / 1460 + doe / 36524 - doe / 146096) / 365;
            &&& 0 <= yoe <= 399
            &&& era_year_start(yoe) <= doe
            &&& doe - era_year_start(yoe) < 365 + if era_year_ends_in_leap_february(yoe) {
                1int
            } else {
                0
            }
        }),
{
}

proof fn lemma_month_of_year(doy: int)
    requires
        0 <= doy <= 365,
    ensures
        ({
            let mp = (5 * doy + 2) / 153;
            &&& 0 <= mp <= 11
            &&& march_month_start(mp) <= doy
            &&& mp < 11 ==> doy < march_month_start(mp + 1)
        }),
{
}

} // verus!

verus! {

proof fn lemma_era_shift(e: int, k: int)
    requires
        e >= 0,
        0 <= k <= 400,
    ensures
        days_from_year_zero(400 * e + k) == 146097 * e + days_from_year_zero(k),
        is_leap_year(400 * e + k) == is_leap_year(k),
{
    assert((400 * e + k + 3) / 4 == 100 * e + (k + 3) / 4) by (nonlinear_arith)
        requires e >= 0, 0 <= k;
    assert((400 * e + k + 99) / 100 == 4 * e + (k + 99) / 100) by (nonlinear_arith)
        requires e >= 0, 0 <= k;
    assert((400 * e + k + 399) / 400 == e + (k + 399) / 400) by (nonlinear_arith)
        requires e >= 0, 0 <= k;
    assert((400 * e + k) % 4 == k % 4) by (nonlinear_arith)
        requires e >= 0, 0 <= k;
    assert((400 * e + k) % 100 == k % 100) by (nonlinear_arith)
        requires e >= 0, 0 <= k;
    assert((400 * e + k) % 400 == k % 400) by (nonlinear_arith)
        requires e >= 0, 0 <= k;
}

proof fn lemma_march_year_start(k: int)
    requires
        0 <= k < 400,
    ensures
        days_from_year_zero(k) + (if is_leap_year(k) { 1int } else { 0 }) - 1 == era_year_start(k),
        days_from_year_zero(k + 1) == days_from_year_zero(k) + days_in_year(k),
        is_leap_year(k + 1) == era_year_ends_in_leap_february(k),
{
}

proof fn lemma_days_before_month_table(y: int)
    ensures
        days_before_month(y, 1) == 0,
        days_before_month(y, 2) == 31,
        days_before_month(y, 3) == 59 + if is_leap_year(y) { 1int } else { 0 },
        days_before_month(y, 4) == 90 + if is_leap_year(y) { 1int } else { 0 },
        days_before_month(y, 5) == 120 + if is_leap_year(y) { 1int } else { 0 },
        days_before_month(y, 6) == 151 + if is_leap_year(y) { 1int } else { 0 },
        days_before_month(y, 7) == 181 + if is_leap_year(y) { 1int } else { 0 },
        days_before_month(y, 8) == 212 + if is_leap_year(y) { 1int } else { 0 },
        days_before_month(y, 9) == 243 + if is_leap_year(y) { 1int } else { 0 },
        days_before_month(y, 10) == 273 + if is_leap_year(y) { 1int } else { 0 },
        days_before_month(y, 11) == 304 + if is_leap_year(y) { 1int } else { 0 },
        days_before_month(y, 12) == 334 + if is_leap_year(y) { 1int } else { 0 },
        days_before_month(y, 13) == days_in_year(y),
{
    assert(days_before_month(y, 1) == 0);
    assert(days_before_month(y, 2) == 31);
    assert(days_before_month(y, 3) == 59 + if is_leap_year(y) { 1int } else { 0 });
    assert(days_before_month(y, 4) == 90 + if is_leap_year(y) { 1int } else { 0 });
    assert(days_before_month(y, 5) == 120 + if is_leap_year(y) { 1int } else { 0 });
    assert(days_before_month(y, 6) == 151 + if is_leap_year(y) { 1int } else { 0 });
    assert(days_before_month(y, 7) == 181 + if is_leap_year(y) { 1int } else { 0 });
    assert(days_before_month(y, 8) == 212 + if is_leap_year(y) { 1int } else { 0 });
    assert(days_before_month(y, 9) == 243 + if is_leap_year(y) { 1int } else { 0 });
    assert(days_before_month(y, 10) == 273 + if is_leap_year(y) { 1int } else { 0 });
    assert(days_before_month(y, 11) == 304 + if is_leap_year(y) { 1int } else { 0 });
    assert(days_before_month(y, 12) == 334 + if is_leap_year(y) { 1int } else { 0 });
}

/// Hinnant's `civil_from_days` steps, taken as mathematical integers, land on
/// the valid date whose day number is `days`.
proof fn lemma_civil_from_days(days: int)
    requires
        0 <= days <= u64::MAX / 86400,
    ensures
        ({
            let z = days + 719468;
            let era = z / 146097;
            let doe = z - era * 146097;
            let yoe = (doe - doe / 1460 + doe / 36524 - doe / 146096) / 365;
            let y = yoe + era * 400;
            let doy = doe - (365 * yoe + yoe / 4 - yoe / 100);
            let mp = (5 * doy + 2) / 153;
            let d = doy - (153 * mp + 2) / 5 + 1;
            let m = if mp < 10 { mp + 3 } else { mp - 9 };
            let year = if m <= 2 { y + 1 } else { y };
            &&& 0 <= doe <= 146096
            &&& 0 <= yoe <= 399
            &&& 0 <= doy <= 365
            &&& 0 <= mp <= 11
            &&& is_valid_date(year, m, d)
            &&& day_number(year, m, d) == days
        }),
{
    let z = days + 719468;
    let era = z / 146097;
    let doe = z - era * 146097;
    lemma_year_of_era(doe);
    let yoe = (doe - doe / 1460 + doe / 36524 - doe / 146096) / 365;
    let y = yoe + era * 400;
    let doy = doe - (365 * yoe + yoe / 4 - yoe / 100);
    lemma_month_of_year(doy);
    let mp = (5 * doy + 2) / 153;
    let d = doy - (153 * mp + 2) / 5 + 1;
    let m = if mp < 10 { mp + 3 } else { mp - 9 };
    let year = if m <= 2 { y + 1 } else { y };
    lemma_era_shift(era, yoe);
    lemma_era_shift(era, yoe + 1);
    lemma_march_year_start(yoe);
    lemma_days_before_month_table(year);
    assert(year >= 1970);
    lemma_days_before_year_closed_form(year);
    assert(days_from_year_zero(1970) == 719528);
}

/// The civil date of day `days` after 1970-01-01 (Hinnant's `civil_from_days`).
fn civil_from_days(days: u64) -> (r: (u64, u64, u64))
    requires
        days <= u64::MAX / 86400,
    ensures
        is_valid_date(r.0 as int, r.1 as int, r.2 as int),
        day_number(r.0 as int, r.1 as int, r.2 as int) == days,
{
    proof {
        lemma_civil_from_days(days as int);
    }
    let z: u64 = days + 719_468;
    let era: u64 = z / 146_097;
    let doe: u64 = z - era * 146_097;
    let yoe: u64 = (doe - doe / 1460 + doe / 36524 - doe / 146_096) / 365;
    let y: u64 = yoe + era * 400;
    let doy: u64 = doe - (365 * yoe + yoe / 4 - yoe / 100);
    let mp: u64 = (5 * doy + 2) / 153;
    let d: u64 = doy - (153 * mp + 2) / 5 + 1;
    let m: u64 = if mp < 10 { mp + 3 } else { mp - 9 };
    let year: u64 = if m <= 2 { y + 1 } else { y };
    (year, m, d)
}

} // verus!

verus! {

proof fn lemma_days_before_year_step(a: int, b: int)
    requires
        1970 <= a < b,
    ensures
        days_before_year(a) + days_in_year(a) <= days_before_year(b),
    decreases b - a,
{
    if b > a + 1 {
        lemma_days_before_year_step(a, b - 1);
    }
}

/// A valid date falls inside its own year.
proof fn lemma_day_number_within_year(y: int, m: int, d: int)
    requires
        is_valid_date(y, m, d),
    ensures
        days_before_year(y) <= day_number(y, m, d) < days_before_year(y) + days_in_year(y),
{
    lemma_days_before_month_table(y);
}

/// Distinct valid dates have distinct day numbers.
pub proof fn lemma_day_number_injective(y1: int, m1: int, d1: int, y2: int, m2: int, d2: int)
    requires
        is_valid_date(y1, m1, d1),
        is_valid_date(y2, m2, d2),
        day_number(y1, m1, d1) == day_number(y2, m2, d2),
    ensures
        y1 == y2 && m1 == m2 && d1 == d2,
{
    lemma_day_number_within_year(y1, m1, d1);
    lemma_day_number_within_year(y2, m2, d2);
    if y1 < y2 {
        lemma_days_before_year_step(y1, y2);
    } else if y2 < y1 {
        lemma_days_before_year_step(y2, y1);
    }
    assert(y1 == y2);
    lemma_days_before_month_table(y1);
}

/// The date that lies `days` days after 1970-01-01.
pub open spec fn civil_date(days: int) -> (int, int, int) {
    choose|date: (int, int, int)|
        is_valid_date(date.0, date.1, date.2) && day_number(date.0, date.1, date.2) == days
}

/// Day-of-week abbreviation, `w` counted from Sunday (0) to Saturday (6).
pub open spec fn weekday_name(w: int) -> Seq<char> {
    if w == 0 {
        "Sun"@
    } else if w == 1 {
        "Mon"@
    } else if w == 2 {
        "Tue"@
    } else if w == 3 {
        "Wed"@
    } else if w == 4 {
        "Thu"@
    } else if w == 5 {
        "Fri"@
    } else {
        "Sat"@
    }
}

/// Month abbreviation, `m` from January (1) to December (12).
pub open spec fn month_name(m: int) -> Seq<char> {
    if m == 1 {
        "Jan"@
    } else if m == 2 {
        "Feb"@
    } else if m == 3 {
        "Mar"@
    } else if m == 4 {
        "Apr"@
    } else if m == 5 {
        "May"@
    } else if m == 6 {
        "Jun"@
    } else if m == 7 {
        "Jul"@
    } else if m == 8 {
        "Aug"@
    } else if m == 9 {
        "Sep"@
    } else if m == 10 {
        "Oct"@
    } else if m == 11 {
        "Nov"@
    } else {
        "Dec"@
    }
}

/// The IMF-fixdate (RFC 7231 §7.1.1.1) of the instant `secs` seconds after
/// the Unix epoch, as bytes: `Sun, 06 Nov 1994 08:49:37 GMT`. 1970-01-01
/// was a Thursday.
pub open spec fn imf_fixdate(secs: nat) -> Seq<u8> {
    let days = secs / 86400;
    let date = civil_date(days as int);
    bytes_of(weekday_name(((days + 4) % 7) as int)) + bytes_of(", "@)
        + zero_padded(decimal(date.2 as nat), 2) + bytes_of(" "@) + bytes_of(month_name(date.1))
        + bytes_of(" "@) + zero_padded(decimal(date.0 as nat), 4) + bytes_of(" "@)
        + zero_padded(decimal(((secs / 3600) % 24) as nat), 2) + bytes_of(":"@)
        + zero_padded(decimal(((secs / 60) % 60) as nat), 2) + bytes_of(":"@)
        + zero_padded(decimal((secs % 60) as nat), 2) + bytes_of(" GMT"@)
}

fn weekday_str(w: u64) -> (s: &'static str)
    requires
        w < 7,
    ensures
        s@ == weekday_name(w as int),
{
    if w == 0 {
        "Sun"
    } else if w == 1 {
        "Mon"
    } else if w == 2 {
        "Tue"
    } else if w == 3 {
        "Wed"
    } else if w == 4 {
        "Thu"
    } else if w == 5 {
        "Fri"
    } else {
        "Sat"
    }
}

fn month_str(m: u64) -> (s: &'static str)
    requires
        1 <= m <= 12,
    ensures
        s@ == month_name(m as int),
{
    if m == 1 {
        "Jan"
    } else if m == 2 {
        "Feb"
    } else if m == 3 {
        "Mar"
    } else if m == 4 {
        "Apr"
    } else if m == 5 {
        "May"
    } else if m == 6 {
        "Jun"
    } else if m == 7 {
        "Jul"
    } else if m == 8 {
        "Aug"
    } else if m == 9 {
        "Sep"
    } else if m == 10 {
        "Oct"
    } else if m == 11 {
        "Nov"
    } else {
        "Dec"
    }
}

/// The IMF-fixdate bytes of the instant `secs` seconds after the Unix epoch.
pub fn imf_fixdate_bytes(secs: u64) -> (r: Vec<u8>)
    ensures
        r@ == imf_fixdate(secs as nat),
{
    let days: u64 = secs / 86_400;
    let date = civil_from_days(days);
    proof {
        let c = civil_date(days as int);
        lemma_day_number_injective(
            date.0 as int,
            date.1 as int,
            date.2 as int,
            c.0,
            c.1,
            c.2,
        );
    }
    let mut out: Vec<u8> = Vec::new();
    push_str(&mut out, weekday_str((days + 4) % 7));
    push_str(&mut out, ", ");
    push_padded_decimal(&mut out, date.2 as u128, 2);
    push_str(&mut out, " ");
    push_str(&mut out, month_str(date.1));
    push_str(&mut out, " ");
    push_padded_decimal(&mut out, date.0 as u128, 4);
    push_str(&mut out, " ");
    push_padded_decimal(&mut out, ((secs / 3600) % 24) as u128, 2);
    push_str(&mut out, ":");
    push_padded_decimal(&mut out, ((secs / 60) % 60) as u128, 2);
    push_str(&mut out, ":");
    push_padded_decimal(&mut out, (secs % 60) as u128, 2);
    push_str(&mut out, " GMT");
    proof {
        assert(out@ =~= imf_fixdate(secs as nat));
    }
    out
}

} // verus!

verus! {

proof fn lemma_padded_decimal_valid(n: nat, width: nat)
    ensures
        valid_utf8(zero_padded(decimal(n), width)),
{
    lemma_decimal_ascii(n);
    let z = Seq::new((if decimal(n).len() >= width { 0 } else { width - decimal(n).len() }) as nat, |_i: int| 48u8);
    assert(is_ascii_bytes(z));
    lemma_ascii_concat(z, decimal(n));
    if decimal(n).len() < width {
        assert(zero_padded(decimal(n), width) == z + decimal(n));
    }
    lemma_ascii_valid_utf8(zero_padded(decimal(n), width));
}

proof fn lemma_imf_fixdate_valid_utf8(secs: nat)
    ensures
        valid_utf8(imf_fixdate(secs)),
{
    let days = secs / 86400;
    let date = civil_date(days as int);
    let parts: Seq<Seq<u8>> = seq![
        bytes_of(weekday_name(((days + 4) % 7) as int)),
        bytes_of(", "@),
        zero_padded(decimal(date.2 as nat), 2),
        bytes_of(" "@),
        bytes_of(month_name(date.1)),
        bytes_of(" "@),
        zero_padded(decimal(date.0 as nat), 4),
        bytes_of(" "@),
        zero_padded(decimal(((secs / 3600) % 24) as nat), 2),
        bytes_of(":"@),
        zero_padded(decimal(((secs / 60) % 60) as nat), 2),
        bytes_of(":"@),
        zero_padded(decimal((secs % 60) as nat), 2),
        bytes_of(" GMT"@),
    ];
    lemma_padded_decimal_valid(date.2 as nat, 2);
    lemma_padded_decimal_valid(date.0 as nat, 4);
    lemma_padded_decimal_valid(((secs / 3600) % 24) as nat, 2);
    lemma_padded_decimal_valid(((secs / 60) % 60) as nat, 2);
    lemma_padded_decimal_valid((secs % 60) as nat, 2);
    assert forall|k: int| 0 <= k < parts.len() implies valid_utf8(#[trigger] parts[k]) by {
        encode_utf8_valid_utf8(weekday_name(((days + 4) % 7) as int));
        encode_utf8_valid_utf8(", "@);
        encode_utf8_valid_utf8(" "@);
        encode_utf8_valid_utf8(month_name(date.1));
        encode_utf8_valid_utf8(":"@);
        encode_utf8_valid_utf8(" GMT"@);
    }
    lemma_concat_prefix_valid(parts, 14);
    assert(concat_prefix(parts, 14) =~= imf_fixdate(secs)) by {
        reveal_with_fuel(concat_prefix, 14);
    }
}

proof fn lemma_concat_prefix_valid(parts: Seq<Seq<u8>>, k: int)
    requires
        1 <= k <= parts.len(),
        forall|i: int| 0 <= i < parts.len() ==> valid_utf8(#[trigger] parts[i]),
    ensures
        valid_utf8(concat_prefix(parts, k)),
    decreases k,
{
    if k > 1 {
        lemma_concat_prefix_valid(parts, k - 1);
        valid_utf8_concat(concat_prefix(parts, k - 1), parts[k - 1]);
    }
}

/// `parts[0] + parts[1] + ... + parts[k - 1]`.
spec fn concat_prefix(parts: Seq<Seq<u8>>, k: int) -> Seq<u8>
    decreases k,
{
    if k <= 1 { parts[0] } else { concat_prefix(parts, k - 1) + parts[k - 1] }
}

/// The IMF-fixdate of the instant `secs` seconds after the Unix epoch.
pub fn imf_fixdate_string(secs: u64) -> (r: String)
    ensures
        bytes_of(r@) == imf_fixdate(secs as nat),
{
    let bytes = imf_fixdate_bytes(secs);
    proof {
        lemma_imf_fixdate_valid_utf8(secs as nat);
    }
    string_from_utf8(bytes.as_slice())
}

/// The two system clocks the codec reads.
pub enum CoarseClock {
    /// `CLOCK_REALTIME_COARSE`: wall-clock time.
    Realtime,
    /// `CLOCK_MONOTONIC_COARSE`: a clock that never steps backwards.
    Monotonic,
}

/// `rustix::time::clock_gettime_dynamic` on the requested coarse clock,
/// returned as `(tv_sec, tv_nsec)`, or `None` when the kernel refuses the
/// clock. The reading depends on the time of the call, so nothing is
/// promised about it.
#[verifier::external_body]
fn clock_gettime(clock: CoarseClock) -> Option<(i64, i64)> {
    let id = match clock {
        CoarseClock::Realtime => rustix::time::ClockId::RealtimeCoarse,
        CoarseClock::Monotonic => rustix::time::ClockId::MonotonicCoarse,
    };
    match rustix::time::clock_gettime_dynamic(rustix::time::DynamicClockId::Known(id)) {
        Ok(ts) => Some((ts.tv_sec, ts.tv_nsec as i64)),
        Err(_) => None,
    }
}

/// The whole seconds since the epoch of a wall-clock reading: a reading
/// before the epoch counts as the epoch itself.
pub open spec fn reading_secs(tv_sec: i64) -> nat {
    if tv_sec < 0 { 0 } else { tv_sec as nat }
}

/// The IMF-fixdate of a wall-clock reading of `tv_sec` seconds.
pub fn imf_fixdate_of_reading(tv_sec: i64) -> (r: String)
    ensures
        bytes_of(r@) == imf_fixdate(reading_secs(tv_sec)),
{
    let secs: u64 = if tv_sec < 0 { 0 } else { tv_sec as u64 };
    imf_fixdate_string(secs)
}

/// The current wall-clock second as an IMF-fixdate string. A clock reading
/// before the epoch, or a clock that cannot be read, is taken as the epoch.
pub fn now_imf_fixdate() -> (r: String)
    ensures
        exists|tv_sec: i64| bytes_of(r@) == #[trigger] imf_fixdate(reading_secs(tv_sec)),
{
    let tv_sec: i64 = match clock_gettime(CoarseClock::Realtime) {
        Some((sec, _nsec)) => sec,
        None => 0,
    };
    imf_fixdate_of_reading(tv_sec)
}

/// Milliseconds of a clock reading `(sec, nsec)`: negative seconds count as
/// zero, and the nanoseconds are taken as an unsigned 128-bit quantity.
pub open spec fn clock_reading_ms(sec: i64, nsec: i64) -> int {
    (if sec < 0 { 0 } else { sec as int }) * 1000 + (nsec as u128) / 1_000_000
}

/// The milliseconds of a monotonic clock reading `(sec, nsec)`.
pub fn reading_ms(sec: i64, nsec: i64) -> (r: u128)
    ensures
        r == clock_reading_ms(sec, nsec),
{
    let secs: u128 = if sec < 0 { 0 } else { sec as u128 };
    let sub: u128 = (nsec as u128) / 1_000_000;
    secs * 1000 + sub
}

/// Coarse monotonic milliseconds: `max(tv_sec, 0) * 1000 + tv_nsec / 10^6`
/// of the coarse monotonic clock (0 when the clock cannot be read).
pub fn coarse_monotonic_ms() -> (r: u128)
    ensures
        exists|sec: i64, nsec: i64| r == #[trigger] clock_reading_ms(sec, nsec),
{
    let (sec, nsec): (i64, i64) = match clock_gettime(CoarseClock::Monotonic) {
        Some(reading) => reading,
        None => (0, 0),
    };
    reading_ms(sec, nsec)
}

/// What `SystemTime::duration_since(UNIX_EPOCH)` gives for `t`: the
/// duration since the epoch, or `None` for an instant before it.
pub uninterp spec fn epoch_offset(t: std::time::SystemTime) -> Option<std::time::Duration>;

/// What `Duration::as_secs` gives for `d`: its whole seconds.
pub uninterp spec fn whole_secs(d: std::time::Duration) -> u64;

/// `SystemTime::duration_since(UNIX_EPOCH)`, with the error (an instant
/// before the epoch) mapped to `None`. The result is named, not described:
/// it is a function of `t` alone.
#[verifier::external_body]
fn since_unix_epoch(t: &std::time::SystemTime) -> (r: Option<std::time::Duration>)
    ensures
        r == epoch_offset(*t),
{
    t.duration_since(std::time::UNIX_EPOCH).ok()
}

/// `Duration::as_secs`: the whole seconds of a duration, named as a function
/// of the duration alone.
#[verifier::external_body]
fn duration_whole_secs(d: &std::time::Duration) -> (r: u64)
    ensures
        r == whole_secs(*d),
{
    d.as_secs()
}

/// The whole seconds since the epoch that `t` formats as: those of its
/// offset from the epoch, or 0 for an instant before it.
pub open spec fn formatted_secs(t: std::time::SystemTime) -> nat {
    match epoch_offset(t) {
        Some(d) => whole_secs(d) as nat,
        None => 0,
    }
}

/// Format a `SystemTime` as an IMF-fixdate string per RFC 7231 §7.1.1.1, in
/// the canonical form `Sun, 06 Nov 1994 08:49:37 GMT`. Times before the Unix
/// epoch format as the epoch itself.
pub fn format_imf_fixdate(t: std::time::SystemTime) -> (r: String)
    ensures
        bytes_of(r@) == imf_fixdate(formatted_secs(t)),
{
    let secs: u64 = match since_unix_epoch(&t) {
        Some(d) => duration_whole_secs(&d),
        None => 0,
    };
    imf_fixdate_string(secs)
}

#[verifier::external_type_specification]
#[verifier::external_body]
pub struct ExSystemTime(std::time::SystemTime);

} // verus!
