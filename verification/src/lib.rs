//! A library for parsing cron schedule expressions and computing the next
//! instant at which a schedule fires.
//!
//! A schedule is written as five whitespace-separated fields (minute, hour,
//! day of month, month, day of week), each either the wildcard `*` or a
//! strictly ascending, duplicate-free comma list of in-range integers.
//! [`Crontab::parse`] validates an expression into a [`ScheduleComponents`]
//! value, and [`Crontab::find_next_event`] walks a civil-time value forward,
//! carry by carry, to the earliest following minute the schedule allows.

mod crontab;
mod error;
mod next_event;
mod parsing;
mod times;

pub use crontab::Crontab;
pub use error::CrontabError;
pub use next_event::calculate_next_event;
pub use next_event::has_val;
pub use next_event::sched_matches;
pub use parsing::all_digits;
pub use parsing::cron_int_error;
pub use parsing::cron_valid;
pub use parsing::digit_val;
pub use parsing::field_hi;
pub use parsing::field_lo;
pub use parsing::field_values;
pub use parsing::fields_valid_upto;
pub use parsing::int_error_first;
pub use parsing::int_of_digits;
pub use parsing::is_digit;
pub use parsing::is_space_char;
pub use parsing::is_wildcard;
pub use parsing::parse_cron;
pub use parsing::parse_field;
pub use parsing::part_ok;
pub use parsing::part_val;
pub use parsing::range_values;
pub use parsing::sched_wf;
pub use parsing::set_wf;
pub use parsing::split_commas;
pub use parsing::split_fields;
pub use parsing::valid_field;
pub use parsing::valid_list;
pub use parsing::valid_number;
pub use parsing::ScheduleComponents;
pub use times::adv_day;
pub use times::adv_hour;
pub use times::adv_minute;
pub use times::adv_month;
pub use times::adv_year;
pub use times::days_in_month;
pub use times::is_leap_year;
pub use times::lemma_value_lex;
pub use times::lex_after;
pub use times::spec_adv_day;
pub use times::spec_adv_hour;
pub use times::spec_adv_minute;
pub use times::spec_adv_month;
pub use times::spec_adv_year;
pub use times::time_value;
pub use times::tm_date_exists;
pub use times::tm_fields_ok;
pub use times::tm_wf;
pub use times::Tm;
pub use times::TmSpec;
pub use times::MAX_TM_YEAR;
pub use times::TM_YEAR_CEIL;
