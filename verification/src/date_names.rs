//! The day and month names of an HTTP-date, held against the calendar's
//! own order.

use crate::date::{month_name, weekday_name};
use vstd::prelude::*;

verus! {

/// The month abbreviations of RFC 7231 §7.1.1.1, January first, three
/// letters each.
pub const MONTH_ABBREVIATIONS: &'static str = "JanFebMarAprMayJunJulAugSepOctNovDec";

/// The day-of-week abbreviations, Sunday first, three letters each.
pub const WEEKDAY_ABBREVIATIONS: &'static str = "SunMonTueWedThuFriSat";

/// The date's month is named by the calendar: month `m` (January being 1)
/// is the `m`-th three-letter group of `JanFebMar...Dec`; so the twelve
/// names are three letters each and pairwise different.
pub proof fn law_month_names_follow_the_calendar(m: int, n: int)
    requires
        1 <= m <= 12,
        1 <= n <= 12,
    ensures
        month_name(m) == MONTH_ABBREVIATIONS@.subrange(3 * (m - 1), 3 * m),
        month_name(m).len() == 3,
        m != n ==> month_name(m) != month_name(n),
{
    reveal_strlit("JanFebMarAprMayJunJulAugSepOctNovDec");
    reveal_strlit("Jan");
    reveal_strlit("Feb");
    reveal_strlit("Mar");
    reveal_strlit("Apr");
    reveal_strlit("May");
    reveal_strlit("Jun");
    reveal_strlit("Jul");
    reveal_strlit("Aug");
    reveal_strlit("Sep");
    reveal_strlit("Oct");
    reveal_strlit("Nov");
    reveal_strlit("Dec");
    assert(month_name(m) =~= MONTH_ABBREVIATIONS@.subrange(3 * (m - 1), 3 * m));
    assert(month_name(n) =~= MONTH_ABBREVIATIONS@.subrange(3 * (n - 1), 3 * n));
    if m != n {
        assert(month_name(m)[0] != month_name(n)[0] || month_name(m)[1] != month_name(n)[1]
            || month_name(m)[2] != month_name(n)[2]);
    }
}

/// Weekday `w` (Sunday being 0) is the `w`-th three-letter group of
/// `SunMon...Sat`; the seven names are pairwise different.
pub proof fn law_weekday_names_follow_the_week(w: int, x: int)
    requires
        0 <= w < 7,
        0 <= x < 7,
    ensures
        weekday_name(w) == WEEKDAY_ABBREVIATIONS@.subrange(3 * w, 3 * w + 3),
        w != x ==> weekday_name(w) != weekday_name(x),
{
    reveal_strlit("SunMonTueWedThuFriSat");
    reveal_strlit("Sun");
    reveal_strlit("Mon");
    reveal_strlit("Tue");
    reveal_strlit("Wed");
    reveal_strlit("Thu");
    reveal_strlit("Fri");
    reveal_strlit("Sat");
    assert(weekday_name(w) =~= WEEKDAY_ABBREVIATIONS@.subrange(3 * w, 3 * w + 3));
    assert(weekday_name(x) =~= WEEKDAY_ABBREVIATIONS@.subrange(3 * x, 3 * x + 3));
    if w != x {
        assert(weekday_name(w)[0] != weekday_name(x)[0] || weekday_name(w)[1] != weekday_name(x)[1]
            || weekday_name(w)[2] != weekday_name(x)[2]);
    }
}

} // verus!
