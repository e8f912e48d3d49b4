use crontab::parse_cron;
use crontab::parse_field;
use crontab::CrontabError;

#[test]
fn parse_correct_size() {
    assert!(parse_cron("").is_err());
    assert!(parse_cron("* * * *").is_err());
    assert!(parse_cron("* * * * * *").is_err());
    assert!(parse_cron("* * * * *").is_ok());

    // Leading and trailing spaces
    assert!(parse_cron("   ").is_err());
    assert!(parse_cron("  * * * *  ").is_err());
    assert!(parse_cron("  * * * * * *  ").is_err());
    assert!(parse_cron("  * * * * *  ").is_ok());

    // Newlines, tabs
    assert!(parse_cron("\n\t").is_err());
    assert!(parse_cron("\n\t* * * *\n\t").is_err());
    assert!(parse_cron("\n\t* * * * * *\n\t").is_err());
    assert!(parse_cron("\n\t* * * * *\n\t").is_ok());
}

#[test]
fn bare_wildcards() {
    let parsed = parse_cron("* * * * *").unwrap();

    assert_eq!(parsed.minutes, (0..60).collect::<Vec<u32>>());
    assert_eq!(parsed.hours, (0..24).collect::<Vec<u32>>());
    assert_eq!(parsed.days, (1..32).collect::<Vec<u32>>());
    assert_eq!(parsed.months, (1..13).collect::<Vec<u32>>());
    assert_eq!(parsed.weekdays, (0..7).collect::<Vec<u32>>());
}

#[test]
fn specified_minutes() {
    let parsed = parse_cron("0 * * * *").unwrap();
    assert_eq!(parsed.minutes, vec![0]);

    let parsed = parse_cron("5,10,15 * * * *").unwrap();
    assert_eq!(parsed.minutes, vec![5, 10, 15]);

    let parsed = parse_cron("59 * * * *").unwrap();
    assert_eq!(parsed.minutes, vec![59]);

    // Outside range
    let result = parse_cron("60 * * * *");
    assert!(result.is_err());

    let result = parse_cron("-1 * * * *");
    assert!(result.is_err());
}

#[test]
fn specified_hours() {
    let parsed = parse_cron("* 0 * * *").unwrap();
    assert_eq!(parsed.hours, vec![0]);

    let parsed = parse_cron("* 1,12,20 * * *").unwrap();
    assert_eq!(parsed.hours, vec![1, 12, 20]);

    let parsed = parse_cron("* 23 * * *").unwrap();
    assert_eq!(parsed.hours, vec![23]);

    // Outside range
    let result = parse_cron("* 24 * * *");
    assert!(result.is_err());

    let result = parse_cron("* -1 * * *");
    assert!(result.is_err());
}

#[test]
fn specified_values_must_be_in_order() {
    assert!(parse_cron("1,2,3 * * * *").is_ok());
    assert!(parse_cron("3,2,1 * * * *").is_err());
}

#[test]
fn specified_values_must_be_unique() {
    assert!(parse_cron("1,2,3 * * * *").is_ok());
    assert!(parse_cron("1,1,1 * * * *").is_err());
}

#[test]
fn error_kinds() {
    // A token that is not a base-10 unsigned integer.
    assert!(matches!(parse_cron("x * * * *"), Err(CrontabError::ErrParseInt(_))));
    assert!(matches!(parse_cron("-1 * * * *"), Err(CrontabError::ErrParseInt(_))));
    assert!(matches!(parse_cron("1,,2 * * * *"), Err(CrontabError::ErrParseInt(_))));
    assert!(matches!(
        parse_cron("99999999999999999999 * * * *"),
        Err(CrontabError::ErrParseInt(_))
    ));

    // Wrong field count, out-of-range values, and unordered lists.
    assert!(matches!(parse_cron("* * * *"), Err(CrontabError::ErrCronFormat(_))));
    assert!(matches!(parse_cron("60 * * * *"), Err(CrontabError::ErrCronFormat(_))));
    assert!(matches!(parse_cron("* * 32 * *"), Err(CrontabError::ErrCronFormat(_))));
    assert!(matches!(parse_cron("* * * 0 *"), Err(CrontabError::ErrCronFormat(_))));
    assert!(matches!(parse_cron("* * * * 7"), Err(CrontabError::ErrCronFormat(_))));
    assert!(matches!(parse_cron("3,2,1 * * * *"), Err(CrontabError::ErrCronFormat(_))));
    assert!(matches!(parse_cron("1,1 * * * *"), Err(CrontabError::ErrCronFormat(_))));
}

#[test]
fn single_field_parsing() {
    assert_eq!(parse_field("*", 0, 59).unwrap(), (0..60).collect::<Vec<u32>>());
    assert_eq!(parse_field("3,9,27", 1, 31).unwrap(), vec![3, 9, 27]);
    assert_eq!(parse_field("6", 0, 6).unwrap(), vec![6]);

    // Out of order is a format error; a non-integer token is not.
    assert!(parse_field("9,3", 1, 31).unwrap_err().is_format_error());
    assert!(parse_field("32", 1, 31).unwrap_err().is_format_error());
    assert!(!parse_field("abc", 1, 31).unwrap_err().is_format_error());
    assert!(!parse_field("", 1, 31).unwrap_err().is_format_error());
}

#[test]
fn seconds_are_reserved_and_empty() {
    let parsed = parse_cron("* * * * *").unwrap();
    assert_eq!(parsed.seconds, Vec::<u32>::new());
}
