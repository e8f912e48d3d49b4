use crate::parsing::{sched_wf, set_wf, ScheduleComponents};
use crate::times::{
    adv_day, adv_hour, adv_minute, adv_month, lemma_chain_ge, lemma_day_successor, lemma_spec_adv_day,
    lemma_spec_adv_hour, lemma_spec_adv_minute, lemma_spec_adv_month, lemma_value_lex, spec_adv_day,
    spec_adv_hour, spec_adv_minute, spec_adv_month, time_value, tm_date_exists, tm_fields_ok, tm_wf,
    Tm, TmSpec, MAX_TM_YEAR,
};
use vstd::prelude::*;

verus! {

/// `x` is one of the listed values.
pub open spec fn has_val(s: Seq<u32>, x: int) -> bool {
    exists|i: int| 0 <= i < s.len() && #[trigger] s[i] == x
}

/// Some listed value is at least `x`.
pub(crate) open spec fn has_ge(s: Seq<u32>, x: int) -> bool {
    exists|i: int| 0 <= i < s.len() && #[trigger] s[i] >= x
}

/// `y` is the smallest listed value that is at least `x`.
pub(crate) open spec fn is_next_ge(s: Seq<u32>, x: int, y: int) -> bool {
    &&& has_val(s, y)
    &&& y >= x
    &&& forall|k: int| 0 <= k < s.len() && #[trigger] s[k] >= x ==> s[k] >= y
}

/// The verdict of one granularity's test against the schedule.
enum DateTimeMatch {
    /// No listed value at or above the probe: a carry was performed and the
    /// whole matching pass must restart at the month.
    Missed,
    /// The probe value is itself listed: matching continues one level down.
    ContinueMatching,
    /// The search is over; this is the answer.
    AnswerFound(Tm),
}

/// Position of the first listed value that is at least `x`, by binary
/// search over the ascending set (`v.len()` when every value is below `x`).
fn lower_bound(v: &Vec<u32>, x: u32) -> (i: usize)
    requires
        forall|p: int, q: int| #![trigger v@[p], v@[q]] 0 <= p < q < v@.len() ==> v@[p] < v@[q],
    ensures
        0 <= i <= v@.len(),
        forall|k: int| 0 <= k < i ==> #[trigger] v@[k] < x,
        forall|k: int| i <= k < v@.len() ==> #[trigger] v@[k] >= x,
{
    let mut lo: usize = 0;
    let mut hi: usize = v.len();
    #[verifier::loop_isolation(false)]
    while lo < hi
        invariant
            lo <= hi <= v@.len(),
            forall|k: int| 0 <= k < lo ==> #[trigger] v@[k] < x,
            forall|k: int| hi <= k < v@.len() ==> #[trigger] v@[k] >= x,
        decreases hi - lo,
    {
        let mid = lo + (hi - lo) / 2;
        if v[mid] < x {
            lo = mid + 1;
        } else {
            hi = mid;
        }
    }
    lo
}

/// What the position found by `lower_bound` says about the set: whether the
/// probe itself is listed, and that the value at the position (when there is
/// one) is the smallest listed value at or above the probe.
proof fn lemma_lower_bound_semantics(s: Seq<u32>, x: int, i: int)
    requires
        forall|p: int, q: int| #![trigger s[p], s[q]] 0 <= p < q < s.len() ==> s[p] < s[q],
        0 <= i <= s.len(),
        forall|k: int| 0 <= k < i ==> #[trigger] s[k] < x,
        forall|k: int| i <= k < s.len() ==> #[trigger] s[k] >= x,
    ensures
        i < s.len() ==> is_next_ge(s, x, s[i] as int),
        i < s.len() ==> (has_val(s, x) <==> s[i] == x),
        i < s.len() ==> has_ge(s, x),
        i == s.len() ==> !has_val(s, x),
        i == s.len() ==> !has_ge(s, x),
{
    if i < s.len() {
        assert(s[i] >= x);
        assert(has_val(s, s[i] as int));
        assert forall|k: int| 0 <= k < s.len() && #[trigger] s[k] >= x implies s[k] >= s[i] by {
            if k < i {
                assert(s[k] < x);
            } else if k > i {
                assert(s[i] < s[k]);
            }
        }
        if has_val(s, x) {
            let w = choose|w: int| 0 <= w < s.len() && #[trigger] s[w] == x;
            if w < i {
                assert(s[w] < x);
            } else if w > i {
                assert(s[i] < s[w]);
            }
            assert(s[i] == x);
        }
    } else {
        assert forall|k: int| 0 <= k < s.len() implies #[trigger] s[k] < x by {}
    }
}

/// The first and last values of an ordered field set lie within its range,
/// in order.
proof fn lemma_set_head_last(s: Seq<u32>, lo: int, hi: int)
    requires
        set_wf(s, lo, hi),
    ensures
        lo <= s[0] <= hi,
        lo <= s.last() <= hi,
        s[0] <= s.last(),
{
    if s.len() > 1 {
        assert(s[0] < s[s.len() - 1]);
    }
}

/// A listed value never exceeds the last (largest) value of the set, nor
/// undercuts the first.
proof fn lemma_member_bounds(s: Seq<u32>, lo: int, hi: int, x: int)
    requires
        set_wf(s, lo, hi),
        has_val(s, x),
    ensures
        s[0] <= x <= s.last(),
{
    let w = choose|i: int| 0 <= i < s.len() && #[trigger] s[i] == x;
    if w < s.len() - 1 {
        assert(s[w] < s[s.len() - 1]);
    }
    if w > 0 {
        assert(s[0] < s[w]);
    }
}

/// The time fires the schedule: minute, hour, day of month, and month are
/// each members of the corresponding set and the seconds are zero.
pub open spec fn sched_matches(s: ScheduleComponents, v: TmSpec) -> bool {
    &&& has_val(s.minutes@, v.min)
    &&& has_val(s.hours@, v.hour)
    &&& has_val(s.days@, v.mday)
    &&& has_val(s.months@, v.mon + 1)
    &&& v.sec == 0
}

/// A listed value at least `y` witnesses `has_ge` at `y`.
proof fn lemma_has_val_ge(s: Seq<u32>, x: int, y: int)
    requires
        has_val(s, x),
        x >= y,
    ensures
        has_ge(s, y),
{
    let w = choose|i: int| 0 <= i < s.len() && #[trigger] s[i] == x;
    assert(s[w] >= y);
}

/// A listed value at or above the probe is at or above the smallest such
/// value.
proof fn lemma_next_ge_bound(s: Seq<u32>, x: int, y: int, z: int)
    requires
        is_next_ge(s, x, y),
        has_val(s, z),
        z >= x,
    ensures
        z >= y,
{
    let w = choose|i: int| 0 <= i < s.len() && #[trigger] s[i] == z;
    assert(s[w] >= y);
}

/// Rounding up to the start of the next minute skips nothing: any existing
/// time on the minute grid strictly after `t` is at or after
/// `spec_adv_minute` of `t`.
proof fn lemma_minute_ceiling(t: TmSpec, v: TmSpec)
    requires
        tm_fields_ok(t),
        t.sec == 0,
        tm_fields_ok(v),
        v.sec == 0,
        tm_date_exists(v),
        time_value(v) > time_value(t),
    ensures
        time_value(v) >= time_value(spec_adv_minute(t)),
{
    lemma_value_lex(t, v);
    lemma_spec_adv_minute(t);
    let r = spec_adv_minute(t);
    if v.year == t.year && v.mon == t.mon && v.mday == t.mday && v.hour == t.hour {
        // Same hour, and both on the minute grid: v is a later minute.
        assert(v.min > t.min);
        assert(t.min < 59);
        lemma_chain_ge(r, v);
    } else if t.min < 59 {
        lemma_chain_ge(r, v);
    } else if t.hour < 23 {
        // r is the top of the next hour.
        lemma_chain_ge(r, v);
    } else {
        // r is midnight of the day after t's date.
        let w = TmSpec { hour: 0, min: 0, ..t };
        lemma_spec_adv_day(w);
        assert(r == spec_adv_day(w));
        lemma_day_successor(w, v);
        lemma_chain_ge(r, v);
    }
}

/// When no listed month remains in `t`'s year, no firing time lies between
/// `t` and the first listed month, day, hour, and minute of the next year.
proof fn lemma_month_miss_skip(s: ScheduleComponents, t: TmSpec, v: TmSpec, n: TmSpec)
    requires
        sched_wf(s),
        tm_fields_ok(t),
        tm_fields_ok(v),
        tm_date_exists(v),
        sched_matches(s, v),
        time_value(v) >= time_value(t),
        !has_ge(s.months@, t.mon + 1),
        tm_fields_ok(n),
        n.year == t.year + 1,
        n.mon == s.months@[0] - 1,
        n.mday == s.days@[0],
        n.hour == s.hours@[0],
        n.min == s.minutes@[0],
        n.sec == 0,
    ensures
        time_value(v) >= time_value(n),
{
    lemma_value_lex(t, v);
    lemma_member_bounds(s.months@, 1, 12, v.mon + 1);
    lemma_member_bounds(s.days@, 1, 31, v.mday);
    lemma_member_bounds(s.hours@, 0, 23, v.hour);
    lemma_member_bounds(s.minutes@, 0, 59, v.min);
    lemma_set_head_last(s.months@, 1, 12);
    if v.year == t.year {
        // v's own month is listed, so a month at or above t's would exist.
        assert(v.mon >= t.mon);
        lemma_has_val_ge(s.months@, v.mon + 1, t.mon + 1);
        assert(false);
    }
    lemma_chain_ge(n, v);
}

/// When the month matched but no listed day remains in it, no firing time
/// lies between `t` and the month advance with day, hour, and minute reset.
proof fn lemma_day_miss_skip(s: ScheduleComponents, t: TmSpec, v: TmSpec)
    requires
        sched_wf(s),
        tm_fields_ok(t),
        tm_fields_ok(v),
        tm_date_exists(v),
        sched_matches(s, v),
        time_value(v) >= time_value(t),
        !has_ge(s.days@, t.mday),
    ensures
        time_value(v) >= time_value(
            spec_adv_month(TmSpec { mday: 1, hour: 0, min: 0, sec: 0, ..t }),
        ),
{
    let u = TmSpec { mday: 1, hour: 0, min: 0, sec: 0, ..t };
    let n = spec_adv_month(u);
    lemma_spec_adv_month(u);
    lemma_value_lex(t, v);
    if v.year == t.year && v.mon == t.mon {
        assert(v.mday >= t.mday);
        lemma_has_val_ge(s.days@, v.mday, t.mday);
        assert(false);
    }
    if t.mon == 11 && v.year == t.year {
        assert(v.mon > t.mon);
        assert(false);
    }
    lemma_chain_ge(n, v);
}

/// When month and day matched but no listed hour remains in the day, no
/// firing time lies between `t` and the day advance with hour and minute
/// reset.
proof fn lemma_hour_miss_skip(s: ScheduleComponents, t: TmSpec, v: TmSpec)
    requires
        sched_wf(s),
        tm_fields_ok(t),
        tm_fields_ok(v),
        tm_date_exists(v),
        sched_matches(s, v),
        time_value(v) >= time_value(t),
        !has_ge(s.hours@, t.hour),
    ensures
        time_value(v) >= time_value(spec_adv_day(TmSpec { hour: 0, min: 0, sec: 0, ..t })),
{
    let u = TmSpec { hour: 0, min: 0, sec: 0, ..t };
    let n = spec_adv_day(u);
    lemma_spec_adv_day(u);
    lemma_value_lex(t, v);
    if v.year == t.year && v.mon == t.mon && v.mday == t.mday {
        assert(v.hour >= t.hour);
        lemma_has_val_ge(s.hours@, v.hour, t.hour);
        assert(false);
    }
    lemma_day_successor(u, v);
    lemma_chain_ge(n, v);
}

/// When month, day, and hour matched but no listed minute remains in the
/// hour, no firing time lies between `t` and the hour advance with the
/// minute reset.
proof fn lemma_minute_miss_skip(s: ScheduleComponents, t: TmSpec, v: TmSpec)
    requires
        sched_wf(s),
        tm_fields_ok(t),
        tm_fields_ok(v),
        tm_date_exists(v),
        sched_matches(s, v),
        time_value(v) >= time_value(t),
        !has_ge(s.minutes@, t.min),
    ensures
        time_value(v) >= time_value(spec_adv_hour(TmSpec { min: 0, sec: 0, ..t })),
{
    let u = TmSpec { min: 0, sec: 0, ..t };
    let n = spec_adv_hour(u);
    lemma_spec_adv_hour(u);
    lemma_value_lex(t, v);
    if v.year == t.year && v.mon == t.mon && v.mday == t.mday && v.hour == t.hour {
        assert(v.min >= t.min);
        lemma_has_val_ge(s.minutes@, v.min, t.min);
        assert(false);
    }
    if t.hour < 23 {
        lemma_chain_ge(n, v);
    } else {
        let w = TmSpec { hour: 0, ..u };
        lemma_spec_adv_day(w);
        assert(n == spec_adv_day(w));
        lemma_day_successor(w, v);
        lemma_chain_ge(n, v);
    }
}

/// When a later month of the same year answers the search, nothing fires
/// between `t` and that month's first listed day, hour, and minute.
proof fn lemma_month_answer_min(s: ScheduleComponents, t: TmSpec, v: TmSpec, u: TmSpec)
    requires
        sched_wf(s),
        tm_fields_ok(t),
        tm_fields_ok(v),
        tm_fields_ok(u),
        tm_date_exists(v),
        sched_matches(s, v),
        time_value(v) >= time_value(t),
        !has_val(s.months@, t.mon + 1),
        is_next_ge(s.months@, t.mon + 1, u.mon + 1),
        u.year == t.year,
        u.mday == s.days@[0],
        u.hour == s.hours@[0],
        u.min == s.minutes@[0],
        u.sec == 0,
    ensures
        time_value(v) >= time_value(u),
{
    lemma_value_lex(t, v);
    lemma_member_bounds(s.days@, 1, 31, v.mday);
    lemma_member_bounds(s.hours@, 0, 23, v.hour);
    lemma_member_bounds(s.minutes@, 0, 59, v.min);
    if v.year == t.year {
        assert(v.mon >= t.mon);
        if v.mon == t.mon {
            assert(has_val(s.months@, t.mon + 1));
            assert(false);
        }
        lemma_next_ge_bound(s.months@, t.mon + 1, u.mon + 1, v.mon + 1);
    }
    lemma_chain_ge(u, v);
}

/// When a later day of the same month answers the search, nothing fires
/// between `t` and that day's first listed hour and minute.
proof fn lemma_day_answer_min(s: ScheduleComponents, t: TmSpec, v: TmSpec, u: TmSpec)
    requires
        sched_wf(s),
        tm_fields_ok(t),
        tm_fields_ok(v),
        tm_fields_ok(u),
        tm_date_exists(v),
        sched_matches(s, v),
        time_value(v) >= time_value(t),
        !has_val(s.days@, t.mday),
        is_next_ge(s.days@, t.mday, u.mday),
        u.year == t.year,
        u.mon == t.mon,
        u.hour == s.hours@[0],
        u.min == s.minutes@[0],
        u.sec == 0,
    ensures
        time_value(v) >= time_value(u),
{
    lemma_value_lex(t, v);
    lemma_member_bounds(s.hours@, 0, 23, v.hour);
    lemma_member_bounds(s.minutes@, 0, 59, v.min);
    if v.year == t.year && v.mon == t.mon {
        assert(v.mday >= t.mday);
        if v.mday == t.mday {
            assert(has_val(s.days@, t.mday));
            assert(false);
        }
        lemma_next_ge_bound(s.days@, t.mday, u.mday, v.mday);
    }
    lemma_chain_ge(u, v);
}

/// When a later hour of the same day answers the search, nothing fires
/// between `t` and that hour's first listed minute.
proof fn lemma_hour_answer_min(s: ScheduleComponents, t: TmSpec, v: TmSpec, u: TmSpec)
    requires
        sched_wf(s),
        tm_fields_ok(t),
        tm_fields_ok(v),
        tm_fields_ok(u),
        tm_date_exists(v),
        sched_matches(s, v),
        time_value(v) >= time_value(t),
        !has_val(s.hours@, t.hour),
        is_next_ge(s.hours@, t.hour, u.hour),
        u.year == t.year,
        u.mon == t.mon,
        u.mday == t.mday,
        u.min == s.minutes@[0],
        u.sec == 0,
    ensures
        time_value(v) >= time_value(u),
{
    lemma_value_lex(t, v);
    lemma_member_bounds(s.minutes@, 0, 59, v.min);
    if v.year == t.year && v.mon == t.mon && v.mday == t.mday {
        assert(v.hour >= t.hour);
        if v.hour == t.hour {
            assert(has_val(s.hours@, t.hour));
            assert(false);
        }
        lemma_next_ge_bound(s.hours@, t.hour, u.hour, v.hour);
    }
    lemma_chain_ge(u, v);
}

/// When a later minute of the same hour answers the search, nothing fires
/// in between.
proof fn lemma_minute_answer_min(s: ScheduleComponents, t: TmSpec, v: TmSpec, u: TmSpec)
    requires
        sched_wf(s),
        tm_fields_ok(t),
        tm_fields_ok(v),
        tm_fields_ok(u),
        tm_date_exists(v),
        sched_matches(s, v),
        time_value(v) >= time_value(t),
        !has_val(s.minutes@, t.min),
        is_next_ge(s.minutes@, t.min, u.min),
        u.year == t.year,
        u.mon == t.mon,
        u.mday == t.mday,
        u.hour == t.hour,
        u.sec == 0,
    ensures
        time_value(v) >= time_value(u),
{
    lemma_value_lex(t, v);
    if v.year == t.year && v.mon == t.mon && v.mday == t.mday && v.hour == t.hour {
        assert(v.min >= t.min);
        if v.min == t.min {
            assert(has_val(s.minutes@, t.min));
            assert(false);
        }
        lemma_next_ge_bound(s.minutes@, t.min, u.min, v.min);
    }
    lemma_chain_ge(u, v);
}

/// Test the current month against the schedule's month set.
///
/// A listed month lets matching continue with `time` untouched. When only a
/// later month of the same year is listed, the answer is that month at the
/// schedule's first day, hour, and minute. When every listed month has
/// passed, the year advances, month, day, hour, and minute fall back to the
/// schedule's first values, and the caller must restart the pass.
fn try_month(times: &ScheduleComponents, time: &mut Tm) -> (r: DateTimeMatch)
    requires
        sched_wf(*times),
        tm_fields_ok(old(time)@),
        old(time)@.year <= MAX_TM_YEAR as int + 16,
    ensures
        has_val(times.months@, old(time)@.mon + 1) ==> (r == DateTimeMatch::ContinueMatching
            && *final(time) == *old(time)),
        !has_val(times.months@, old(time)@.mon + 1) && has_ge(times.months@, old(time)@.mon + 1)
            ==> *final(time) == *old(time) && (r matches DateTimeMatch::AnswerFound(u) && {
            &&& is_next_ge(times.months@, old(time)@.mon + 1, u@.mon + 1)
            &&& u@.mon > old(time)@.mon
            &&& u@.mday == times.days@[0]
            &&& u@.hour == times.hours@[0]
            &&& u@.min == times.minutes@[0]
            &&& u@.sec == 0
            &&& u@.year == old(time)@.year
            &&& u@.wday == old(time)@.wday
            &&& u@.yday == old(time)@.yday
        }),
        !has_ge(times.months@, old(time)@.mon + 1) ==> (r == DateTimeMatch::Missed && {
            &&& final(time)@.year == old(time)@.year + 1
            &&& final(time)@.mon == times.months@[0] - 1
            &&& final(time)@.mday == times.days@[0]
            &&& final(time)@.hour == times.hours@[0]
            &&& final(time)@.min == times.minutes@[0]
            &&& final(time)@.sec == 0
            &&& final(time)@.wday == old(time)@.wday
            &&& final(time)@.yday == old(time)@.yday
        }),
{
    proof {
        lemma_set_head_last(times.months@, 1, 12);
        lemma_set_head_last(times.days@, 1, 31);
        lemma_set_head_last(times.hours@, 0, 23);
        lemma_set_head_last(times.minutes@, 0, 59);
    }
    let test_month = (time.tm_mon + 1) as u32;
    let idx = lower_bound(&times.months, test_month);
    proof {
        lemma_lower_bound_semantics(times.months@, test_month as int, idx as int);
    }
    if idx < times.months.len() && times.months[idx] == test_month {
        // A listed month: keep matching at the next granularity.
        DateTimeMatch::ContinueMatching
    } else if idx < times.months.len() {
        // A later listed month this year: nothing earlier than the first
        // listed day, hour, and minute of it can fire.
        let month = times.months[idx];
        let mut use_time = *time;
        use_time.tm_mon = (month - 1) as i32;
        use_time.tm_mday = times.days[0] as i32;
        use_time.tm_hour = times.hours[0] as i32;
        use_time.tm_min = times.minutes[0] as i32;
        use_time.tm_sec = 0;
        DateTimeMatch::AnswerFound(use_time)
    } else {
        // Every listed month has passed: carry into the next year.
        time.tm_year = time.tm_year + 1;
        time.tm_mon = (times.months[0] - 1) as i32;
        time.tm_mday = times.days[0] as i32;
        time.tm_hour = times.hours[0] as i32;
        time.tm_min = times.minutes[0] as i32;
        time.tm_sec = 0;
        DateTimeMatch::Missed
    }
}

/// Test the current day of the month against the schedule's day set; only
/// reached when the month matched precisely.
///
/// A miss resets day, hour, and minute and advances the month; the pass
/// then restarts, because the new month must be re-validated.
fn try_day(times: &ScheduleComponents, time: &mut Tm) -> (r: DateTimeMatch)
    requires
        sched_wf(*times),
        tm_fields_ok(old(time)@),
        old(time)@.year <= MAX_TM_YEAR as int + 16,
    ensures
        has_val(times.days@, old(time)@.mday) ==> (r == DateTimeMatch::ContinueMatching && *final(time) == *old(time)),
        !has_val(times.days@, old(time)@.mday) && has_ge(times.days@, old(time)@.mday) ==> *final(time) == *old(time) && (r matches DateTimeMatch::AnswerFound(u) && {
            &&& is_next_ge(times.days@, old(time)@.mday, u@.mday)
            &&& u@.mday > old(time)@.mday
            &&& u@.hour == times.hours@[0]
            &&& u@.min == times.minutes@[0]
            &&& u@.sec == 0
            &&& u@.year == old(time)@.year
            &&& u@.mon == old(time)@.mon
            &&& u@.wday == old(time)@.wday
            &&& u@.yday == old(time)@.yday
        }),
        !has_ge(times.days@, old(time)@.mday) ==> (r == DateTimeMatch::Missed && final(time)@
            == spec_adv_month(TmSpec { mday: 1, hour: 0, min: 0, sec: 0, ..old(time)@ })),
{
    proof {
        lemma_set_head_last(times.days@, 1, 31);
        lemma_set_head_last(times.hours@, 0, 23);
        lemma_set_head_last(times.minutes@, 0, 59);
    }
    let test_day = time.tm_mday as u32;
    let idx = lower_bound(&times.days, test_day);
    proof {
        lemma_lower_bound_semantics(times.days@, test_day as int, idx as int);
    }
    if idx < times.days.len() && times.days[idx] == test_day {
        DateTimeMatch::ContinueMatching
    } else if idx < times.days.len() {
        let day = times.days[idx];
        let mut use_time = *time;
        use_time.tm_mday = day as i32;
        use_time.tm_hour = times.hours[0] as i32;
        use_time.tm_min = times.minutes[0] as i32;
        use_time.tm_sec = 0;
        DateTimeMatch::AnswerFound(use_time)
    } else {
        time.tm_mday = 1;
        time.tm_hour = 0;
        time.tm_min = 0;
        time.tm_sec = 0;
        adv_month(time);
        DateTimeMatch::Missed
    }
}

/// Test the current hour against the schedule's hour set; only reached when
/// month and day matched precisely.
fn try_hour(times: &ScheduleComponents, time: &mut Tm) -> (r: DateTimeMatch)
    requires
        sched_wf(*times),
        tm_fields_ok(old(time)@),
        old(time)@.year <= MAX_TM_YEAR as int + 16,
    ensures
        has_val(times.hours@, old(time)@.hour) ==> (r == DateTimeMatch::ContinueMatching && *final(time) == *old(time)),
        !has_val(times.hours@, old(time)@.hour) && has_ge(times.hours@, old(time)@.hour) ==> *final(time) == *old(time) && (r matches DateTimeMatch::AnswerFound(u) && {
            &&& is_next_ge(times.hours@, old(time)@.hour, u@.hour)
            &&& u@.hour > old(time)@.hour
            &&& u@.min == times.minutes@[0]
            &&& u@.sec == 0
            &&& u@.year == old(time)@.year
            &&& u@.mon == old(time)@.mon
            &&& u@.mday == old(time)@.mday
            &&& u@.wday == old(time)@.wday
            &&& u@.yday == old(time)@.yday
        }),
        !has_ge(times.hours@, old(time)@.hour) ==> (r == DateTimeMatch::Missed && final(time)@
            == spec_adv_day(TmSpec { hour: 0, min: 0, sec: 0, ..old(time)@ })),
{
    proof {
        lemma_set_head_last(times.hours@, 0, 23);
        lemma_set_head_last(times.minutes@, 0, 59);
    }
    let test_hour = time.tm_hour as u32;
    let idx = lower_bound(&times.hours, test_hour);
    proof {
        lemma_lower_bound_semantics(times.hours@, test_hour as int, idx as int);
    }
    if idx < times.hours.len() && times.hours[idx] == test_hour {
        DateTimeMatch::ContinueMatching
    } else if idx < times.hours.len() {
        let hour = times.hours[idx];
        let mut use_time = *time;
        use_time.tm_hour = hour as i32;
        use_time.tm_min = times.minutes[0] as i32;
        use_time.tm_sec = 0;
        DateTimeMatch::AnswerFound(use_time)
    } else {
        time.tm_hour = 0;
        time.tm_min = 0;
        time.tm_sec = 0;
        adv_day(time);
        DateTimeMatch::Missed
    }
}

/// Test the current minute against the schedule's minute set; only reached
/// when month, day, and hour matched precisely. The minute is the terminal
/// granularity: an exact match is itself the answer.
fn try_minute(times: &ScheduleComponents, time: &mut Tm) -> (r: DateTimeMatch)
    requires
        sched_wf(*times),
        tm_fields_ok(old(time)@),
        old(time)@.year <= MAX_TM_YEAR as int + 16,
    ensures
        has_val(times.minutes@, old(time)@.min) ==> *final(time) == *old(time) && (r matches
            DateTimeMatch::AnswerFound(u) && u@ == TmSpec { sec: 0, ..old(time)@ }),
        !has_val(times.minutes@, old(time)@.min) && has_ge(times.minutes@, old(time)@.min)
            ==> *final(time) == *old(time) && (r matches DateTimeMatch::AnswerFound(u) && {
            &&& is_next_ge(times.minutes@, old(time)@.min, u@.min)
            &&& u@.min > old(time)@.min
            &&& u@.sec == 0
            &&& u@.year == old(time)@.year
            &&& u@.mon == old(time)@.mon
            &&& u@.mday == old(time)@.mday
            &&& u@.hour == old(time)@.hour
            &&& u@.wday == old(time)@.wday
            &&& u@.yday == old(time)@.yday
        }),
        !has_ge(times.minutes@, old(time)@.min) ==> (r == DateTimeMatch::Missed && final(time)@
            == spec_adv_hour(TmSpec { min: 0, sec: 0, ..old(time)@ })),
{
    proof {
        lemma_set_head_last(times.minutes@, 0, 59);
    }
    let test_minute = time.tm_min as u32;
    let idx = lower_bound(&times.minutes, test_minute);
    proof {
        lemma_lower_bound_semantics(times.minutes@, test_minute as int, idx as int);
    }
    if idx < times.minutes.len() && times.minutes[idx] == test_minute {
        // The minute is listed, and minute resolution is terminal: done.
        let mut use_time = *time;
        use_time.tm_sec = 0;
        DateTimeMatch::AnswerFound(use_time)
    } else if idx < times.minutes.len() {
        let minute = times.minutes[idx];
        let mut use_time = *time;
        use_time.tm_min = minute as i32;
        use_time.tm_sec = 0;
        DateTimeMatch::AnswerFound(use_time)
    } else {
        time.tm_min = 0;
        time.tm_sec = 0;
        adv_hour(time);
        DateTimeMatch::Missed
    }
}

/// How many granularities could still fail to find a listed value at or
/// above the current one, weighted so that every carry strictly shrinks it:
/// a failed level zeroes its own weight and can only raise strictly lighter
/// ones.
spec fn miss_measure(s: ScheduleComponents, t: TmSpec) -> int {
    (if t.min > s.minutes@.last() {
        8int
    } else {
        0int
    }) + (if t.hour > s.hours@.last() {
        4int
    } else {
        0int
    }) + (if t.mday > s.days@.last() {
        2int
    } else {
        0int
    }) + (if t.mon + 1 > s.months@.last() {
        1int
    } else {
        0int
    })
}

/// Whether every field set of `times` is a nonempty, strictly ascending,
/// in-range set.
fn schedule_wf_check(times: &ScheduleComponents) -> (b: bool)
    ensures
        b == sched_wf(*times),
{
    check_set(&times.minutes, 0, 59) && check_set(&times.hours, 0, 23) && check_set(
        &times.days,
        1,
        31,
    ) && check_set(&times.months, 1, 12) && check_set(&times.weekdays, 0, 6)
}

/// Whether `v` is a nonempty, strictly ascending list of values in
/// [lo, hi].
fn check_set(v: &Vec<u32>, lo: u32, hi: u32) -> (b: bool)
    ensures
        b == set_wf(v@, lo as int, hi as int),
{
    if v.len() == 0 {
        return false;
    }
    let mut i: usize = 0;
    #[verifier::loop_isolation(false)]
    while i < v.len()
        invariant
            i <= v@.len(),
            forall|k: int| 0 <= k < i ==> lo <= #[trigger] v@[k] <= hi,
            forall|p: int, q: int| #![trigger v@[p], v@[q]] 0 <= p < q < i ==> v@[p] < v@[q],
        decreases v@.len() - i,
    {
        if v[i] < lo || v[i] > hi {
            return false;
        }
        if i > 0 && v[i - 1] >= v[i] {
            return false;
        }
        i = i + 1;
    }
    true
}

/// Whether every field of `t` is in range and the year leaves the search
/// its carry headroom.
fn tm_in_range(t: &Tm) -> (b: bool)
    ensures
        b == tm_wf(t@),
{
    0 <= t.tm_sec && t.tm_sec <= 59 && 0 <= t.tm_min && t.tm_min <= 59 && 0 <= t.tm_hour
        && t.tm_hour <= 23 && 1 <= t.tm_mday && t.tm_mday <= 31 && 0 <= t.tm_mon && t.tm_mon <= 11
        && 0 <= t.tm_year && t.tm_year <= MAX_TM_YEAR && 0 <= t.tm_wday && t.tm_wday <= 6
        && 0 <= t.tm_yday && t.tm_yday <= 365
}

/// Get the next time, strictly after `time`, at which the schedule fires.
///
/// For a well-formed schedule (as the parser always produces) and an
/// in-range start time the result is always `Some`: the start of a minute
/// strictly after `time` whose minute, hour, day of month, and month are
/// each members of the corresponding schedule set. The weekday set is
/// parsed and stored but not consulted. An ill-formed schedule or an
/// out-of-range start yields `None`.
pub fn calculate_next_event(times: &ScheduleComponents, time: &Tm) -> (r: Option<Tm>)
    ensures
        r is Some <==> (sched_wf(*times) && tm_wf(time@)),
        r matches Some(u) ==> {
            &&& tm_fields_ok(u@)
            &&& u@.sec == 0
            &&& time_value(u@) > time_value(time@)
            &&& u@.year <= time@.year + 16
            &&& sched_matches(*times, u@)
        },
        r matches Some(u) ==> forall|v: TmSpec|
            tm_fields_ok(v) && tm_date_exists(v) && #[trigger] sched_matches(*times, v)
                && time_value(v) > time_value(time@) ==> time_value(v) >= time_value(u@),
{
    if !schedule_wf_check(times) {
        return None;
    }
    if !tm_in_range(time) {
        return None;
    }
    let ghost t0 = time@;

    // Minute resolution: always round up to the start of the next minute.
    let mut next_time = *time;
    next_time.tm_sec = 0;
    proof {
        lemma_spec_adv_minute(next_time@);
    }
    adv_minute(&mut next_time);
    proof {
        assert forall|v: TmSpec|
            tm_fields_ok(v) && tm_date_exists(v) && #[trigger] sched_matches(*times, v)
                && time_value(v) > time_value(t0) implies time_value(v) >= time_value(next_time@) by {
            lemma_minute_ceiling(TmSpec { sec: 0, ..t0 }, v);
        }
    }

    loop
        invariant
            sched_wf(*times),
            tm_wf(t0),
            t0 == time@,
            tm_fields_ok(next_time@),
            next_time@.sec == 0,
            time_value(next_time@) > time_value(t0),
            next_time@.year + miss_measure(*times, next_time@) <= t0.year + 16,
            forall|v: TmSpec|
                tm_fields_ok(v) && tm_date_exists(v) && #[trigger] sched_matches(*times, v)
                    && time_value(v) > time_value(t0) ==> time_value(v) >= time_value(next_time@),
        decreases miss_measure(*times, next_time@),
    {
        let ghost t_head = next_time@;
        proof {
            lemma_set_head_last(times.months@, 1, 12);
            lemma_set_head_last(times.days@, 1, 31);
            lemma_set_head_last(times.hours@, 0, 23);
            lemma_set_head_last(times.minutes@, 0, 59);
        }

        match try_month(times, &mut next_time) {
            DateTimeMatch::Missed => {
                proof {
                    assert forall|v: TmSpec|
                        tm_fields_ok(v) && tm_date_exists(v) && #[trigger] sched_matches(*times, v)
                            && time_value(v) > time_value(t0) implies time_value(v)
                        >= time_value(next_time@) by {
                        lemma_month_miss_skip(*times, t_head, v, next_time@);
                    }
                }
                continue;
            },
            DateTimeMatch::ContinueMatching => {},
            DateTimeMatch::AnswerFound(upcoming) => {
                proof {
                    assert forall|v: TmSpec|
                        tm_fields_ok(v) && tm_date_exists(v) && #[trigger] sched_matches(*times, v)
                            && time_value(v) > time_value(t0) implies time_value(v)
                        >= time_value(upcoming@) by {
                        lemma_month_answer_min(*times, t_head, v, upcoming@);
                    }
                }
                return Some(upcoming);
            },
        }
        proof {
            lemma_member_bounds(times.months@, 1, 12, t_head.mon + 1);
        }

        match try_day(times, &mut next_time) {
            DateTimeMatch::Missed => {
                proof {
                    lemma_spec_adv_month(TmSpec { mday: 1, hour: 0, min: 0, sec: 0, ..t_head });
                    assert forall|v: TmSpec|
                        tm_fields_ok(v) && tm_date_exists(v) && #[trigger] sched_matches(*times, v)
                            && time_value(v) > time_value(t0) implies time_value(v)
                        >= time_value(next_time@) by {
                        lemma_day_miss_skip(*times, t_head, v);
                    }
                }
                continue;
            },
            DateTimeMatch::ContinueMatching => {},
            DateTimeMatch::AnswerFound(upcoming) => {
                proof {
                    assert forall|v: TmSpec|
                        tm_fields_ok(v) && tm_date_exists(v) && #[trigger] sched_matches(*times, v)
                            && time_value(v) > time_value(t0) implies time_value(v)
                        >= time_value(upcoming@) by {
                        lemma_day_answer_min(*times, t_head, v, upcoming@);
                    }
                }
                return Some(upcoming);
            },
        }
        proof {
            lemma_member_bounds(times.days@, 1, 31, t_head.mday);
        }

        match try_hour(times, &mut next_time) {
            DateTimeMatch::Missed => {
                proof {
                    lemma_spec_adv_day(TmSpec { hour: 0, min: 0, sec: 0, ..t_head });
                    assert forall|v: TmSpec|
                        tm_fields_ok(v) && tm_date_exists(v) && #[trigger] sched_matches(*times, v)
                            && time_value(v) > time_value(t0) implies time_value(v)
                        >= time_value(next_time@) by {
                        lemma_hour_miss_skip(*times, t_head, v);
                    }
                }
                continue;
            },
            DateTimeMatch::ContinueMatching => {},
            DateTimeMatch::AnswerFound(upcoming) => {
                proof {
                    assert forall|v: TmSpec|
                        tm_fields_ok(v) && tm_date_exists(v) && #[trigger] sched_matches(*times, v)
                            && time_value(v) > time_value(t0) implies time_value(v)
                        >= time_value(upcoming@) by {
                        lemma_hour_answer_min(*times, t_head, v, upcoming@);
                    }
                }
                return Some(upcoming);
            },
        }
        proof {
            lemma_member_bounds(times.hours@, 0, 23, t_head.hour);
        }

        match try_minute(times, &mut next_time) {
            DateTimeMatch::Missed => {
                proof {
                    lemma_spec_adv_hour(TmSpec { min: 0, sec: 0, ..t_head });
                    assert forall|v: TmSpec|
                        tm_fields_ok(v) && tm_date_exists(v) && #[trigger] sched_matches(*times, v)
                            && time_value(v) > time_value(t0) implies time_value(v)
                        >= time_value(next_time@) by {
                        lemma_minute_miss_skip(*times, t_head, v);
                    }
                }
            },
            DateTimeMatch::ContinueMatching => {
                // `try_minute` never asks to continue below the minute.
                return Some(next_time);
            },
            DateTimeMatch::AnswerFound(upcoming) => {
                proof {
                    if !has_val(times.minutes@, t_head.min) {
                        assert forall|v: TmSpec|
                            tm_fields_ok(v) && tm_date_exists(v) && #[trigger] sched_matches(*times, v)
                            && time_value(v) > time_value(t0) implies time_value(v)
                        >= time_value(upcoming@) by {
                            lemma_minute_answer_min(*times, t_head, v, upcoming@);
                        }
                    } else {
                        assert(time_value(upcoming@) == time_value(t_head));
                    }
                }
                return Some(upcoming);
            },
        }
    }
}

} // verus!
