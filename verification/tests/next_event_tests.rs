use crontab::adv_day;
use crontab::calculate_next_event;
use crontab::Crontab;
use crontab::ScheduleComponents;
use crontab::Tm;

/// Build a civil time from human-readable parts (1-indexed month).
fn get_tm(year: i32, month: i32, day: i32, hour: i32, minute: i32, second: i32) -> Tm {
    Tm {
        tm_sec: second,
        tm_min: minute,
        tm_hour: hour,
        tm_mday: day,
        tm_mon: month - 1,
        tm_year: year - 1900,
        tm_wday: 0,
        tm_yday: 0,
    }
}

/// Strip the derived weekday and day-of-year counters so a value can be
/// compared against one built by `get_tm`.
fn normal(tm: &Tm) -> Tm {
    let mut t = *tm;
    t.tm_wday = 0;
    t.tm_yday = 0;
    t
}

fn parse_times(schedule: &str) -> ScheduleComponents {
    let parsed = Crontab::parse(schedule).ok().unwrap();
    parsed.schedule
}

#[test]
fn every_minute() {
    let times = parse_times("* * * * *"); // every minute

    // Advances the minute
    let tm = get_tm(2001, 1, 1, 12, 0, 0);
    let next = calculate_next_event(&times, &tm).unwrap();
    assert_eq!(normal(&next), get_tm(2001, 1, 1, 12, 1, 0));

    // Again
    let tm = get_tm(2001, 1, 1, 12, 30, 0);
    let next = calculate_next_event(&times, &tm).unwrap();
    assert_eq!(normal(&next), get_tm(2001, 1, 1, 12, 31, 0));

    // Advances the hour
    let tm = get_tm(2001, 1, 1, 12, 59, 0);
    let next = calculate_next_event(&times, &tm).unwrap();
    assert_eq!(normal(&next), get_tm(2001, 1, 1, 13, 0, 0));

    // Advances the day
    let tm = get_tm(2001, 1, 1, 23, 59, 0);
    let next = calculate_next_event(&times, &tm).unwrap();
    assert_eq!(normal(&next), get_tm(2001, 1, 2, 0, 0, 0));

    // Advances the month
    let tm = get_tm(2001, 1, 31, 23, 59, 0);
    let next = calculate_next_event(&times, &tm).unwrap();
    assert_eq!(normal(&next), get_tm(2001, 2, 1, 0, 0, 0));

    // Seconds get rounded up to the next minute
    let tm = get_tm(2001, 1, 1, 12, 0, 1);
    let next = calculate_next_event(&times, &tm).unwrap();
    assert_eq!(normal(&next), get_tm(2001, 1, 1, 12, 1, 0));
}

#[test]
fn every_fifteen_minutes() {
    // The quarter hours, written as the explicit ascending list the final
    // grammar accepts.
    let times = parse_times("0,15,30,45 * * * *");

    // Minute before :15 (2017-05-15 11:14)
    let tm = get_tm(2017, 5, 15, 11, 14, 0);
    let next = calculate_next_event(&times, &tm).unwrap();
    assert_eq!(normal(&next), get_tm(2017, 5, 15, 11, 15, 0));

    // Minute after :15 (2017-05-15 11:16)
    let tm = get_tm(2017, 5, 15, 11, 16, 0);
    let next = calculate_next_event(&times, &tm).unwrap();
    assert_eq!(normal(&next), get_tm(2017, 5, 15, 11, 30, 0));

    // Minute after :30 (2017-05-15 11:31)
    let tm = get_tm(2017, 5, 15, 11, 31, 0);
    let next = calculate_next_event(&times, &tm).unwrap();
    assert_eq!(normal(&next), get_tm(2017, 5, 15, 11, 45, 0));

    // Minute before :00 (2017-10-15 23:59)
    let tm = get_tm(2017, 10, 15, 23, 59, 0);
    let next = calculate_next_event(&times, &tm).unwrap();
    assert_eq!(normal(&next), get_tm(2017, 10, 16, 0, 0, 0));

    // Two minutes before New Year (2017-12-31 23:58)
    let tm = get_tm(2017, 12, 31, 23, 58, 0);
    let next = calculate_next_event(&times, &tm).unwrap();
    assert_eq!(normal(&next), get_tm(2018, 1, 1, 0, 0, 0));

    // Minute before New Year (2017-12-31 23:59)
    let tm = get_tm(2017, 12, 31, 23, 59, 0);
    let next = calculate_next_event(&times, &tm).unwrap();
    assert_eq!(normal(&next), get_tm(2018, 1, 1, 0, 0, 0));
}

#[test]
fn precise_date_and_time() {
    let times = parse_times("0 0 1 10 *"); // 0:00 Oct 1st

    // Minute before
    let tm = get_tm(2017, 9, 30, 23, 59, 0);
    let next = calculate_next_event(&times, &tm).unwrap();
    assert_eq!(normal(&next), get_tm(2017, 10, 1, 0, 0, 0));

    // Second before
    let tm = get_tm(2017, 9, 30, 23, 59, 59);
    let next = calculate_next_event(&times, &tm).unwrap();
    assert_eq!(normal(&next), get_tm(2017, 10, 1, 0, 0, 0));

    // Month before
    let tm = get_tm(2017, 9, 1, 0, 0, 0);
    let next = calculate_next_event(&times, &tm).unwrap();
    assert_eq!(normal(&next), get_tm(2017, 10, 1, 0, 0, 0));

    // Minute after ... must wait a year!
    let tm = get_tm(2017, 10, 1, 0, 1, 0);
    let next = calculate_next_event(&times, &tm).unwrap();
    assert_eq!(normal(&next), get_tm(2018, 10, 1, 0, 0, 0));

    // Month after... must wait 11 months!
    let tm = get_tm(2017, 11, 1, 0, 0, 0);
    let next = calculate_next_event(&times, &tm).unwrap();
    assert_eq!(normal(&next), get_tm(2018, 10, 1, 0, 0, 0));

    // Now with more nonzero time fields...
    // Oct 13 @ 22:45
    let times = parse_times("45 22 13 10 *");

    // Before (all time fields are nonzero)
    let tm = get_tm(2017, 7, 4, 10, 30, 1);
    let next = calculate_next_event(&times, &tm).unwrap();
    assert_eq!(normal(&next), get_tm(2017, 10, 13, 22, 45, 0));

    // After (all time fields are nonzero)
    let tm = get_tm(2017, 11, 15, 10, 30, 15);
    let next = calculate_next_event(&times, &tm).unwrap();
    assert_eq!(normal(&next), get_tm(2018, 10, 13, 22, 45, 0));
}

#[test]
fn first_of_the_month() {
    // First of the month at 0:00.
    let times = parse_times("0 0 1 * *");

    // A minute late... advances the month.
    let tm = get_tm(2004, 1, 1, 0, 1, 59);
    let next = calculate_next_event(&times, &tm).unwrap();
    assert_eq!(normal(&next), get_tm(2004, 2, 1, 0, 0, 0));

    // A few hours late... advances the month.
    let tm = get_tm(2004, 1, 1, 12, 59, 59);
    let next = calculate_next_event(&times, &tm).unwrap();
    assert_eq!(normal(&next), get_tm(2004, 2, 1, 0, 0, 0));

    // Halfway through month advances the month.
    let tm = get_tm(2004, 1, 15, 0, 0, 0);
    let next = calculate_next_event(&times, &tm).unwrap();
    assert_eq!(normal(&next), get_tm(2004, 2, 1, 0, 0, 0));

    // Halfway through month at end of year advances the year.
    let tm = get_tm(2004, 12, 15, 0, 0, 0);
    let next = calculate_next_event(&times, &tm).unwrap();
    assert_eq!(normal(&next), get_tm(2005, 1, 1, 0, 0, 0));
}

#[test]
fn every_hour_in_january_and_july() {
    // Every single hour in January and July.
    let times = parse_times("0 * * 1,7 *");

    // Last minute of December
    let tm = get_tm(2005, 12, 31, 23, 59, 59);
    let next = calculate_next_event(&times, &tm).unwrap();
    assert_eq!(normal(&next), get_tm(2006, 1, 1, 0, 0, 0));

    // First hour of January... advances to the next hour
    let tm = get_tm(2005, 1, 1, 0, 0, 0);
    let next = calculate_next_event(&times, &tm).unwrap();
    assert_eq!(normal(&next), get_tm(2005, 1, 1, 1, 0, 0));

    // Noon January 15th... advances to the next hour
    let tm = get_tm(2005, 1, 15, 12, 0, 0);
    let next = calculate_next_event(&times, &tm).unwrap();
    assert_eq!(normal(&next), get_tm(2005, 1, 15, 13, 0, 0));

    // Last minute of January... advances to July.
    let tm = get_tm(2005, 1, 31, 23, 59, 59);
    let next = calculate_next_event(&times, &tm).unwrap();
    assert_eq!(normal(&next), get_tm(2005, 7, 1, 0, 0, 0));

    // First hour of July... advances to the next hour
    let tm = get_tm(2005, 7, 1, 0, 0, 0);
    let next = calculate_next_event(&times, &tm).unwrap();
    assert_eq!(normal(&next), get_tm(2005, 7, 1, 1, 0, 0));

    // Last hour of July... advances to next year's January
    let tm = get_tm(2005, 7, 31, 23, 59, 59);
    let next = calculate_next_event(&times, &tm).unwrap();
    assert_eq!(normal(&next), get_tm(2006, 1, 1, 0, 0, 0));
}

#[test]
fn new_years() {
    // At the New Year's ball drop.
    let times = parse_times("0 0 1 1 *");

    // Last minute of December
    let tm = get_tm(2007, 12, 31, 23, 59, 59);
    let next = calculate_next_event(&times, &tm).unwrap();
    assert_eq!(normal(&next), get_tm(2008, 1, 1, 0, 0, 0));

    // Minute zero of the new year... advances to next year
    let tm = get_tm(2007, 1, 1, 0, 0, 0);
    let next = calculate_next_event(&times, &tm).unwrap();
    assert_eq!(normal(&next), get_tm(2008, 1, 1, 0, 0, 0));

    // Minute five of the new year... advances to next year
    let tm = get_tm(2007, 1, 1, 0, 5, 0);
    let next = calculate_next_event(&times, &tm).unwrap();
    assert_eq!(normal(&next), get_tm(2008, 1, 1, 0, 0, 0));

    // Hour one of the new year... advances to next year
    let tm = get_tm(2007, 1, 1, 1, 0, 0);
    let next = calculate_next_event(&times, &tm).unwrap();
    assert_eq!(normal(&next), get_tm(2008, 1, 1, 0, 0, 0));

    // Day two of the new year... advances to next year
    let tm = get_tm(2007, 1, 2, 0, 0, 0);
    let next = calculate_next_event(&times, &tm).unwrap();
    assert_eq!(normal(&next), get_tm(2008, 1, 1, 0, 0, 0));

    // July advances to the next year
    let tm = get_tm(2007, 7, 1, 0, 0, 0);
    let next = calculate_next_event(&times, &tm).unwrap();
    assert_eq!(normal(&next), get_tm(2008, 1, 1, 0, 0, 0));
}

#[test]
fn spot_check_fields_every_day() {
    // Every single day at midnight.
    let times = parse_times("0 0 * * *");

    // 2017-01-01 00:00 UTC, a non-leap year starting on a Sunday (tm_wday=0).
    let timespec = time::Timespec::new(1483228800, 0);
    let start = time::at_utc(timespec);
    let mut last = Tm {
        tm_sec: start.tm_sec,
        tm_min: start.tm_min,
        tm_hour: start.tm_hour,
        tm_mday: start.tm_mday,
        tm_mon: start.tm_mon,
        tm_year: start.tm_year,
        tm_wday: start.tm_wday,
        tm_yday: start.tm_yday,
    };
    let mut next = last.clone();
    let mut expected = last.clone();

    // First day of 2017. (tm_year=117)
    assert_eq!(last.tm_year, 117);
    assert_eq!(next.tm_mon, 0);
    assert_eq!(last.tm_yday, 0);
    assert_eq!(next.tm_mday, 1); // 1-indexed
    assert_eq!(last.tm_wday, 0); // 2017 starts on a Sunday

    for _ in 0..365 {
        // We expect the next event to be the next day.
        adv_day(&mut expected);
        next = calculate_next_event(&times, &last).unwrap();

        // Check expectations.
        assert_eq!(next.tm_year, expected.tm_year);
        assert_eq!(next.tm_mon, expected.tm_mon);
        assert_eq!(next.tm_mday, expected.tm_mday);
        assert_eq!(next.tm_yday, expected.tm_yday);
        assert_eq!(next.tm_wday, expected.tm_wday);

        // Midnight
        assert_eq!(next.tm_hour, 0);
        assert_eq!(next.tm_min, 0);
        assert_eq!(next.tm_sec, 0);

        adv_day(&mut last);
    }

    // First day of 2018. (tm_year=118)
    assert_eq!(next.tm_year, 118);
    assert_eq!(next.tm_mon, 0);
    assert_eq!(next.tm_yday, 0);
    assert_eq!(next.tm_mday, 1); // 1-indexed
    assert_eq!(next.tm_wday, 1); // 2018 starts on a Monday

    // The next two years aren't leap years.
    for _ in 0..(365 * 2) {
        // We expect the next event to be the next day.
        adv_day(&mut expected);
        next = calculate_next_event(&times, &last).unwrap();

        // Check expectations.
        assert_eq!(next.tm_year, expected.tm_year);
        assert_eq!(next.tm_mon, expected.tm_mon);
        assert_eq!(next.tm_mday, expected.tm_mday);
        assert_eq!(next.tm_yday, expected.tm_yday);
        assert_eq!(next.tm_wday, expected.tm_wday);

        // Midnight
        assert_eq!(next.tm_hour, 0);
        assert_eq!(next.tm_min, 0);
        assert_eq!(next.tm_sec, 0);

        adv_day(&mut last);
    }

    // First day of 2020.
    assert_eq!(next.tm_year, 120);
    assert_eq!(next.tm_mon, 0);
    assert_eq!(next.tm_yday, 0);
    assert_eq!(next.tm_mday, 1); // 1-indexed
    assert_eq!(next.tm_wday, 3); // 2020 starts on a Wednesday

    // 2020 is a leap year
    for _ in 0..366 {
        // We expect the next event to be the next day.
        adv_day(&mut expected);
        next = calculate_next_event(&times, &last).unwrap();

        // Check expectations.
        assert_eq!(next.tm_year, expected.tm_year);
        assert_eq!(next.tm_mon, expected.tm_mon);
        assert_eq!(next.tm_mday, expected.tm_mday);
        assert_eq!(next.tm_yday, expected.tm_yday);
        assert_eq!(next.tm_wday, expected.tm_wday);

        // Midnight
        assert_eq!(next.tm_hour, 0);
        assert_eq!(next.tm_min, 0);
        assert_eq!(next.tm_sec, 0);

        adv_day(&mut last);
    }

    // First day of 2021.
    assert_eq!(next.tm_year, 121);
    assert_eq!(next.tm_mon, 0);
    assert_eq!(next.tm_yday, 0);
    assert_eq!(next.tm_mday, 1); // 1-indexed
    assert_eq!(next.tm_wday, 5); // 2021 starts on a Friday
}

/// Comparable instant for ordering checks, most significant field first.
fn as_tuple(t: &Tm) -> (i32, i32, i32, i32, i32, i32) {
    (t.tm_year, t.tm_mon, t.tm_mday, t.tm_hour, t.tm_min, t.tm_sec)
}

#[test]
fn next_event_is_strictly_later_and_listed() {
    let crontab = Crontab::parse("10,40 6,18 1,15 3,9 *").unwrap();

    let tm = get_tm(2016, 2, 29, 23, 59, 30);
    let n1 = crontab.find_next_event(&tm).unwrap();
    let n2 = crontab.find_next_event(&n1).unwrap();

    // Strictly after the start, and strictly increasing when chained.
    assert!(as_tuple(&n1) > as_tuple(&tm));
    assert!(as_tuple(&n2) > as_tuple(&n1));

    // Every produced field is a member of the corresponding set.
    for next in [&n1, &n2] {
        assert!(crontab.schedule.minutes.contains(&(next.tm_min as u32)));
        assert!(crontab.schedule.hours.contains(&(next.tm_hour as u32)));
        assert!(crontab.schedule.days.contains(&(next.tm_mday as u32)));
        assert!(crontab.schedule.months.contains(&((next.tm_mon + 1) as u32)));
        assert_eq!(next.tm_sec, 0);
    }

    // The concrete values: 2016-02-29 23:59:30 -> 2016-03-01 06:10:00.
    assert_eq!(normal(&n1), get_tm(2016, 3, 1, 6, 10, 0));
    assert_eq!(normal(&n2), get_tm(2016, 3, 1, 6, 40, 0));
}

#[test]
fn ill_formed_schedule_is_refused() {
    // A hand-built schedule that violates the parser's invariants (an empty
    // minute set) is reported, not searched.
    let crontab = Crontab { schedule: ScheduleComponents::default() };
    let tm = get_tm(2017, 1, 1, 0, 0, 0);
    assert!(crontab.find_next_event(&tm).is_none());
}
