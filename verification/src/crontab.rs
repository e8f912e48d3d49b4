use crate::error::CrontabError;
use crate::next_event::{calculate_next_event, sched_matches};
use crate::parsing::{
    cron_int_error, cron_valid, field_values, parse_cron, sched_wf, split_fields,
    ScheduleComponents,
};
use crate::times::{time_value, tm_date_exists, tm_fields_ok, tm_wf, Tm, TmSpec};
use vstd::prelude::*;

verus! {

/// Represents a crontab schedule.
pub struct Crontab {
    /// The components parsed from a crontab schedule.
    pub schedule: ScheduleComponents,
}

impl Crontab {
    /// Parse a crontab schedule of five whitespace-separated fields —
    /// minute, hour, day of month, month, day of week — each either `*` or
    /// a strictly ascending, duplicate-free comma list of integers within
    /// the field's range.
    ///
    /// Parsing succeeds exactly on such expressions and stores exactly the
    /// listed values, with `*` expanded to the field's whole range. A wrong
    /// field count or an out-of-range or out-of-order list is an
    /// `ErrCronFormat`; a token that is not an integer is an `ErrParseInt`.
    pub fn parse(crontab_schedule: &str) -> (r: Result<Crontab, CrontabError>)
        ensures
            r is Ok <==> cron_valid(crontab_schedule@),
            r is Ok ==> {
                let sched = r->Ok_0.schedule;
                let f = split_fields(crontab_schedule@);
                &&& sched.minutes@ == field_values(f[0], 0, 59)
                &&& sched.hours@ == field_values(f[1], 0, 23)
                &&& sched.days@ == field_values(f[2], 1, 31)
                &&& sched.months@ == field_values(f[3], 1, 12)
                &&& sched.weekdays@ == field_values(f[4], 0, 6)
                &&& sched.seconds@ == Seq::<u32>::empty()
                &&& sched_wf(sched)
            },
            r is Err && split_fields(crontab_schedule@).len() != 5 ==> r->Err_0 is ErrCronFormat,
            r is Err && split_fields(crontab_schedule@).len() == 5 ==> (r->Err_0 is ErrParseInt
                <==> cron_int_error(crontab_schedule@)),
    {
        match parse_cron(crontab_schedule) {
            Ok(times) => Ok(Crontab { schedule: times }),
            Err(e) => Err(e),
        }
    }

    /// Find when the next event will take place: the start of the earliest
    /// minute strictly after `time` whose minute, hour, day of month, and
    /// month are all members of this schedule's sets.
    ///
    /// For a schedule built by [`Crontab::parse`] and an in-range `time`
    /// the result is always `Some`; `None` signals a hand-built schedule
    /// that violates the parser's invariants or an out-of-range start. The
    /// weekday set is parsed and stored but not consulted. The result fires
    /// the schedule, and no existing calendar time that fires it lies
    /// strictly between `time` and the result.
    pub fn find_next_event(&self, time: &Tm) -> (r: Option<Tm>)
        ensures
            r is Some <==> (sched_wf(self.schedule) && tm_wf(time@)),
            r matches Some(u) ==> {
                &&& tm_fields_ok(u@)
                &&& u@.sec == 0
                &&& time_value(u@) > time_value(time@)
                &&& u@.year <= time@.year + 16
                &&& sched_matches(self.schedule, u@)
            },
            r matches Some(u) ==> forall|v: TmSpec|
                tm_fields_ok(v) && tm_date_exists(v) && #[trigger] sched_matches(
                    self.schedule,
                    v,
                ) && time_value(v) > time_value(time@) ==> time_value(v) >= time_value(u@),
    {
        calculate_next_event(&self.schedule, time)
    }
}

} // verus!
