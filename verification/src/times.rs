use vstd::prelude::*;

verus! {

/// Largest `tm_year` the library accepts as a search start. It leaves enough
/// headroom below `i32::MAX` that the bounded number of year carries a single
/// next-event search can perform never overflows.
pub const MAX_TM_YEAR: i32 = 0x7fff_0000;

/// Ceiling on `tm_year` below which a single advance step cannot overflow:
/// it leaves room for one carry and for the 1900 offset of the calendar
/// year. It sits far enough above [`MAX_TM_YEAR`] that every advance a
/// search performs stays below it.
pub const TM_YEAR_CEIL: i32 = 0x7fff_f000;

/// A civil (calendar and clock) time value: the fields the schedule logic
/// reads and writes, at one-second resolution. `tm_wday` and `tm_yday` are
/// derived counters that day advancement keeps in step.
#[derive(Clone, Copy, Debug, PartialEq, Eq, Structural)]
pub struct Tm {
    /// Seconds after the minute, in [0, 59].
    pub tm_sec: i32,
    /// Minutes after the hour, in [0, 59].
    pub tm_min: i32,
    /// Hours since midnight, in [0, 23].
    pub tm_hour: i32,
    /// Day of the month, in [1, 31].
    pub tm_mday: i32,
    /// Months since January, in [0, 11].
    pub tm_mon: i32,
    /// Years since 1900, at least 0.
    pub tm_year: i32,
    /// Days since Sunday, in [0, 6].
    pub tm_wday: i32,
    /// Days since January 1, in [0, 365].
    pub tm_yday: i32,
}

/// The mathematical model of a civil-time value: the same fields as [`Tm`],
/// over unbounded integers.
pub struct TmSpec {
    pub sec: int,
    pub min: int,
    pub hour: int,
    pub mday: int,
    pub mon: int,
    pub year: int,
    pub wday: int,
    pub yday: int,
}

impl View for Tm {
    type V = TmSpec;

    open spec fn view(&self) -> TmSpec {
        TmSpec {
            sec: self.tm_sec as int,
            min: self.tm_min as int,
            hour: self.tm_hour as int,
            mday: self.tm_mday as int,
            mon: self.tm_mon as int,
            year: self.tm_year as int,
            wday: self.tm_wday as int,
            yday: self.tm_yday as int,
        }
    }
}

/// A year (as an ordinary calendar year, not an offset from 1900) is a leap
/// year when it is divisible by 400, or by 4 but not by 100.
pub open spec fn is_leap_year(year: int) -> bool {
    year % 400 == 0 || (year % 4 == 0 && year % 100 != 0)
}

/// Number of days in month `mon` (0-indexed, January = 0) of `year`
/// (an ordinary calendar year).
pub open spec fn days_in_month(year: int, mon: int) -> int {
    if mon == 1 {
        if is_leap_year(year) {
            29
        } else {
            28
        }
    } else if mon == 3 || mon == 5 || mon == 8 || mon == 10 {
        30
    } else {
        31
    }
}

/// Every field of `t` lies in its legal range.
pub open spec fn tm_fields_ok(t: TmSpec) -> bool {
    &&& 0 <= t.sec <= 59
    &&& 0 <= t.min <= 59
    &&& 0 <= t.hour <= 23
    &&& 1 <= t.mday <= 31
    &&& 0 <= t.mon <= 11
    &&& 0 <= t.year
    &&& 0 <= t.wday <= 6
    &&& 0 <= t.yday <= 365
}

/// A well-formed civil-time value: fields in range, and the year low enough
/// that advancing it during one search cannot overflow.
pub open spec fn tm_wf(t: TmSpec) -> bool {
    tm_fields_ok(t) && t.year <= MAX_TM_YEAR as int
}

/// Injective linear encoding of a civil time onto the integers. For values
/// whose fields are in range it orders times exactly as the lexicographic
/// order on (year, month, day, hour, minute, second) does, so "strictly
/// later" is "strictly greater" under this measure. The weights are the
/// radixes of the fields below each position (with every month given its
/// full 31 slots): 60 seconds, 60 minutes, 24 hours, 31 days, 12 months.
pub open spec fn time_value(t: TmSpec) -> int {
    t.year * 32140800 + t.mon * 2678400 + (t.mday - 1) * 86400 + t.hour * 3600 + t.min * 60
        + t.sec
}

/// The day of month actually exists in its month: there is no April 31.
pub open spec fn tm_date_exists(t: TmSpec) -> bool {
    t.mday <= days_in_month(t.year + 1900, t.mon)
}

/// `b` is strictly later than `a` in lexicographic field order, most
/// significant field first.
pub open spec fn lex_after(b: TmSpec, a: TmSpec) -> bool {
    ||| b.year > a.year
    ||| (b.year == a.year && b.mon > a.mon)
    ||| (b.year == a.year && b.mon == a.mon && b.mday > a.mday)
    ||| (b.year == a.year && b.mon == a.mon && b.mday == a.mday && b.hour > a.hour)
    ||| (b.year == a.year && b.mon == a.mon && b.mday == a.mday && b.hour == a.hour && b.min
        > a.min)
    ||| (b.year == a.year && b.mon == a.mon && b.mday == a.mday && b.hour == a.hour && b.min
        == a.min && b.sec > a.sec)
}

/// On values with fields in range, the linear measure orders times exactly
/// as the lexicographic field order does, and equal measures mean equal
/// clock readings.
pub proof fn lemma_value_lex(a: TmSpec, b: TmSpec)
    requires
        tm_fields_ok(a),
        tm_fields_ok(b),
    ensures
        time_value(b) > time_value(a) <==> lex_after(b, a),
        time_value(b) == time_value(a) <==> (b.year == a.year && b.mon == a.mon && b.mday == a.mday
            && b.hour == a.hour && b.min == a.min && b.sec == a.sec),
{
}

/// Componentwise comparison: when `v` is at least `n` at every level that
/// all higher levels leave tied, `v`'s measure is at least `n`'s.
pub(crate) proof fn lemma_chain_ge(n: TmSpec, v: TmSpec)
    requires
        tm_fields_ok(n),
        tm_fields_ok(v),
        v.year >= n.year,
        v.year == n.year ==> v.mon >= n.mon,
        v.year == n.year && v.mon == n.mon ==> v.mday >= n.mday,
        v.year == n.year && v.mon == n.mon && v.mday == n.mday ==> v.hour >= n.hour,
        v.year == n.year && v.mon == n.mon && v.mday == n.mday && v.hour == n.hour ==> v.min
            >= n.min,
        v.year == n.year && v.mon == n.mon && v.mday == n.mday && v.hour == n.hour && v.min
            == n.min ==> v.sec >= n.sec,
    ensures
        time_value(v) >= time_value(n),
{
    lemma_value_lex(n, v);
}

/// What advancing the year does: the year grows by one and nothing else
/// moves.
pub open spec fn spec_adv_year(t: TmSpec) -> TmSpec {
    TmSpec { year: t.year + 1, ..t }
}

/// What advancing the month does: the month grows by one, carrying into the
/// year after December.
pub open spec fn spec_adv_month(t: TmSpec) -> TmSpec {
    if t.mon < 11 {
        TmSpec { mon: t.mon + 1, ..t }
    } else {
        spec_adv_year(TmSpec { mon: 0, ..t })
    }
}

/// What advancing the day does: the day of month grows by one, carrying into
/// the month when it passes that month's length (leap years included); the
/// weekday rotates, and the day of year steps, restarting at 0 when the
/// carry rolls into January.
pub open spec fn spec_adv_day(t: TmSpec) -> TmSpec {
    let wday = (t.wday + 1) % 7;
    if t.mday + 1 > days_in_month(t.year + 1900, t.mon) {
        let yday = if t.mon == 11 {
            0
        } else {
            (t.yday + 1) % 366
        };
        spec_adv_month(TmSpec { wday: wday, yday: yday, mday: 1, ..t })
    } else {
        TmSpec { wday: wday, yday: (t.yday + 1) % 366, mday: t.mday + 1, ..t }
    }
}

/// What advancing the hour does: the hour grows by one, carrying into the day
/// after hour 23.
pub open spec fn spec_adv_hour(t: TmSpec) -> TmSpec {
    if t.hour < 23 {
        TmSpec { hour: t.hour + 1, ..t }
    } else {
        spec_adv_day(TmSpec { hour: 0, ..t })
    }
}

/// What advancing the minute does: the minute grows by one, carrying into the
/// hour after minute 59.
pub open spec fn spec_adv_minute(t: TmSpec) -> TmSpec {
    if t.min < 59 {
        TmSpec { min: t.min + 1, ..t }
    } else {
        spec_adv_hour(TmSpec { min: 0, ..t })
    }
}

/// Advancing the year raises the measure by exactly one year's weight and
/// touches nothing else.
pub(crate) proof fn lemma_spec_adv_year(t: TmSpec)
    requires
        tm_fields_ok(t),
    ensures
        tm_fields_ok(spec_adv_year(t)),
        spec_adv_year(t).year == t.year + 1,
        time_value(spec_adv_year(t)) == time_value(t) + 32140800,
        spec_adv_year(t).mon == t.mon,
        spec_adv_year(t).mday == t.mday,
        spec_adv_year(t).hour == t.hour,
        spec_adv_year(t).min == t.min,
        spec_adv_year(t).sec == t.sec,
{
}

/// Advancing the month raises the measure by exactly one month's weight,
/// keeps the fields in range, and grows the year by at most one.
pub(crate) proof fn lemma_spec_adv_month(t: TmSpec)
    requires
        tm_fields_ok(t),
    ensures
        tm_fields_ok(spec_adv_month(t)),
        t.year <= spec_adv_month(t).year <= t.year + 1,
        time_value(spec_adv_month(t)) == time_value(t) + 2678400,
        spec_adv_month(t).mday == t.mday,
        spec_adv_month(t).hour == t.hour,
        spec_adv_month(t).min == t.min,
        spec_adv_month(t).sec == t.sec,
{
    if t.mon >= 11 {
        lemma_spec_adv_year(TmSpec { mon: 0, ..t });
    }
}

/// Advancing the day raises the measure by at least one day's weight (more
/// when a short month's unused day slots are skipped), keeps the fields in
/// range, and grows the year by at most one.
pub(crate) proof fn lemma_spec_adv_day(t: TmSpec)
    requires
        tm_fields_ok(t),
    ensures
        tm_fields_ok(spec_adv_day(t)),
        t.year <= spec_adv_day(t).year <= t.year + 1,
        time_value(spec_adv_day(t)) >= time_value(t) + 86400,
        spec_adv_day(t).hour == t.hour,
        spec_adv_day(t).min == t.min,
        spec_adv_day(t).sec == t.sec,
{
    let wday = (t.wday + 1) % 7;
    if t.mday + 1 > days_in_month(t.year + 1900, t.mon) {
        let yday = if t.mon == 11 {
            0
        } else {
            (t.yday + 1) % 366
        };
        assert(28 <= days_in_month(t.year + 1900, t.mon) <= 31);
        lemma_spec_adv_month(TmSpec { wday: wday, yday: yday, mday: 1, ..t });
    }
}

/// No existing calendar date lies strictly between a date and its day
/// advance: a date that exists and is later than `t`'s date is at or after
/// the date of `spec_adv_day(t)`.
pub(crate) proof fn lemma_day_successor(t: TmSpec, v: TmSpec)
    requires
        tm_fields_ok(t),
        tm_fields_ok(v),
        tm_date_exists(v),
        v.year > t.year || (v.year == t.year && v.mon > t.mon) || (v.year == t.year && v.mon
            == t.mon && v.mday > t.mday),
    ensures
        ({
            let s = spec_adv_day(t);
            v.year > s.year || (v.year == s.year && v.mon > s.mon) || (v.year == s.year && v.mon
                == s.mon && v.mday >= s.mday)
        }),
{
    if t.mday + 1 > days_in_month(t.year + 1900, t.mon) {
        if v.year == t.year && v.mon == t.mon {
            // v.mday would have to pass the month's end: no such date exists.
            assert(v.mday > days_in_month(v.year + 1900, v.mon));
            assert(false);
        }
    }
}

/// Advancing the hour raises the measure by at least one hour's weight,
/// keeps the fields in range, and grows the year by at most one.
pub(crate) proof fn lemma_spec_adv_hour(t: TmSpec)
    requires
        tm_fields_ok(t),
    ensures
        tm_fields_ok(spec_adv_hour(t)),
        t.year <= spec_adv_hour(t).year <= t.year + 1,
        time_value(spec_adv_hour(t)) >= time_value(t) + 3600,
        spec_adv_hour(t).min == t.min,
        spec_adv_hour(t).sec == t.sec,
{
    if t.hour >= 23 {
        lemma_spec_adv_day(TmSpec { hour: 0, ..t });
    }
}

/// Advancing the minute raises the measure by at least one minute's weight,
/// keeps the fields in range, and grows the year by at most one.
pub(crate) proof fn lemma_spec_adv_minute(t: TmSpec)
    requires
        tm_fields_ok(t),
    ensures
        tm_fields_ok(spec_adv_minute(t)),
        t.year <= spec_adv_minute(t).year <= t.year + 1,
        time_value(spec_adv_minute(t)) >= time_value(t) + 60,
        spec_adv_minute(t).sec == t.sec,
{
    if t.min >= 59 {
        lemma_spec_adv_hour(TmSpec { min: 0, ..t });
    }
}

/// Advance `time` by one year.
pub fn adv_year(time: &mut Tm)
    requires
        tm_fields_ok(old(time)@),
        old(time)@.year <= TM_YEAR_CEIL as int,
    ensures
        final(time)@ == spec_adv_year(old(time)@),
        tm_fields_ok(final(time)@),
        final(time)@.year == old(time)@.year + 1,
{
    time.tm_year = time.tm_year + 1;
}

/// Advance `time` by one month, carrying into the year after December.
pub fn adv_month(time: &mut Tm)
    requires
        tm_fields_ok(old(time)@),
        old(time)@.year <= TM_YEAR_CEIL as int,
    ensures
        final(time)@ == spec_adv_month(old(time)@),
        tm_fields_ok(final(time)@),
        old(time)@.year <= final(time)@.year <= old(time)@.year + 1,
{
    time.tm_mon = time.tm_mon + 1;
    if time.tm_mon > 11 {
        time.tm_mon = 0;
        adv_year(time);
    }
}

/// Advance `time` by one day, carrying into the month (and year) past the
/// month's end, with the leap-year rule deciding February's length. The
/// weekday rotates and the day of year steps, restarting at 0 in a new year.
pub fn adv_day(time: &mut Tm)
    requires
        tm_fields_ok(old(time)@),
        old(time)@.year <= TM_YEAR_CEIL as int,
    ensures
        final(time)@ == spec_adv_day(old(time)@),
        tm_fields_ok(final(time)@),
        old(time)@.year <= final(time)@.year <= old(time)@.year + 1,
{
    time.tm_wday = (time.tm_wday + 1) % 7;

    let year = time.tm_year + 1900;
    let is_leap_year = year % 400 == 0 || (year % 4 == 0 && year % 100 != 0);
    let mdays: i32 = if time.tm_mon == 1 {
        if is_leap_year {
            29
        } else {
            28
        }
    } else if time.tm_mon == 3 || time.tm_mon == 5 || time.tm_mon == 8 || time.tm_mon == 10 {
        30
    } else {
        31
    };

    if time.tm_mday + 1 > mdays {
        time.tm_mday = 1;
        if time.tm_mon == 11 {
            time.tm_yday = 0;
        } else {
            time.tm_yday = (time.tm_yday + 1) % 366;
        }
        adv_month(time);
    } else {
        time.tm_mday = time.tm_mday + 1;
        time.tm_yday = (time.tm_yday + 1) % 366;
    }
}

/// Advance `time` by one hour, carrying into the day after hour 23.
pub fn adv_hour(time: &mut Tm)
    requires
        tm_fields_ok(old(time)@),
        old(time)@.year <= TM_YEAR_CEIL as int,
    ensures
        final(time)@ == spec_adv_hour(old(time)@),
        tm_fields_ok(final(time)@),
        old(time)@.year <= final(time)@.year <= old(time)@.year + 1,
{
    time.tm_hour = time.tm_hour + 1;
    if time.tm_hour > 23 {
        time.tm_hour = 0;
        adv_day(time);
    }
}

/// Advance `time` by one minute, carrying into the hour after minute 59.
pub fn adv_minute(time: &mut Tm)
    requires
        tm_fields_ok(old(time)@),
        old(time)@.year <= TM_YEAR_CEIL as int,
    ensures
        final(time)@ == spec_adv_minute(old(time)@),
        tm_fields_ok(final(time)@),
        old(time)@.year <= final(time)@.year <= old(time)@.year + 1,
{
    time.tm_min = time.tm_min + 1;
    if time.tm_min > 59 {
        time.tm_min = 0;
        adv_hour(time);
    }
}

} // verus!
