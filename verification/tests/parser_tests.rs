use crust::expr::CronInterval;
use crust::parser::{is_out_of_bounds, parse_crontab, parse_cron_time, ParseErrorKind};
use crust::expr::CronUnit;

#[test]
fn parse_single_field_forms() {
    let m = CronUnit::Minute;
    assert_eq!(parse_cron_time(&m, "*"), Ok(CronInterval::Every));
    assert_eq!(parse_cron_time(&m, "7"), Ok(CronInterval::Multiple(vec![7])));
    assert_eq!(
        parse_cron_time(&m, "30-33"),
        Ok(CronInterval::Multiple(vec![30, 31, 32, 33]))
    );
    assert_eq!(
        parse_cron_time(&m, "*/15"),
        Ok(CronInterval::Multiple(vec![0, 15, 30, 45]))
    );
    // comma-separated forms combine, sorted and deduplicated
    assert_eq!(
        parse_cron_time(&m, "15,5-7,6"),
        Ok(CronInterval::Multiple(vec![5, 6, 7, 15]))
    );
    // a star anywhere in the list makes the whole field unrestricted
    assert_eq!(parse_cron_time(&m, "5,*"), Ok(CronInterval::Every));
}

#[test]
fn parse_field_errors() {
    let m = CronUnit::Minute;
    assert_eq!(parse_cron_time(&m, "abc"), Err(ParseErrorKind::NotAnInteger));
    assert_eq!(parse_cron_time(&m, ""), Err(ParseErrorKind::NotAnInteger));
    assert_eq!(parse_cron_time(&m, "61"), Err(ParseErrorKind::OutOfBounds));
    assert_eq!(parse_cron_time(&m, "5-61"), Err(ParseErrorKind::OutOfBounds));
    assert_eq!(parse_cron_time(&m, "5-5"), Err(ParseErrorKind::InvalidRange));
    assert_eq!(parse_cron_time(&m, "9-5"), Err(ParseErrorKind::InvalidRange));
    assert_eq!(parse_cron_time(&m, "*/0"), Err(ParseErrorKind::ZeroStep));
    assert_eq!(parse_cron_time(&m, "*/x"), Err(ParseErrorKind::NotAnInteger));
    // a huge number overflows and is not an integer of the field's size
    assert_eq!(
        parse_cron_time(&m, "99999999999"),
        Err(ParseErrorKind::NotAnInteger)
    );
    // a step that selects nothing in the unit's range
    let mo = CronUnit::Month;
    assert_eq!(parse_cron_time(&mo, "*/100"), Err(ParseErrorKind::EmptyInterval));
}

#[test]
fn parse_workday_line() {
    let es = parse_crontab("*/15 9-17 * * 1-5 echo hello world").expect("parses");
    assert_eq!(es.len(), 1);
    let e = &es[0];
    assert!(!e.startup);
    assert_eq!(e.minute.1, CronInterval::Multiple(vec![0, 15, 30, 45]));
    assert_eq!(
        e.hour.1,
        CronInterval::Multiple(vec![9, 10, 11, 12, 13, 14, 15, 16, 17])
    );
    assert_eq!(e.dom.1, CronInterval::Every);
    assert_eq!(e.month.1, CronInterval::Every);
    assert_eq!(e.dow.1, CronInterval::Multiple(vec![1, 2, 3, 4, 5]));
    assert_eq!(e.cmd, "echo hello world");
}

#[test]
fn parse_skips_comments_and_blanks() {
    let text = "# morning jobs\n\n  \n0 6 * * * echo up\n# the end\n";
    let es = parse_crontab(text).expect("parses");
    assert_eq!(es.len(), 1);
    assert_eq!(es[0].cmd, "echo up");
    assert_eq!(es[0].minute.1, CronInterval::Multiple(vec![0]));
    assert_eq!(es[0].hour.1, CronInterval::Multiple(vec![6]));
}

#[test]
fn parse_reboot_line() {
    let es = parse_crontab("@reboot /usr/bin/backup --fast now").expect("parses");
    assert_eq!(es.len(), 1);
    assert!(es[0].startup);
    assert_eq!(es[0].cmd, "/usr/bin/backup --fast now");
    assert!(es[0].minute.is_every());
    assert!(es[0].dow.is_every());
}

#[test]
fn parse_shorthands() {
    let es = parse_crontab("@daily echo d\n@hourly echo h\n@yearly echo y\n@weekly echo w\n@monthly echo m")
        .expect("parses");
    assert_eq!(es.len(), 5);
    // @daily is 0 0 * * *
    assert_eq!(es[0].minute.1, CronInterval::Multiple(vec![0]));
    assert_eq!(es[0].hour.1, CronInterval::Multiple(vec![0]));
    assert_eq!(es[0].dom.1, CronInterval::Every);
    assert_eq!(es[0].cmd, "echo d");
    // @hourly is 0 * * * *
    assert_eq!(es[1].minute.1, CronInterval::Multiple(vec![0]));
    assert_eq!(es[1].hour.1, CronInterval::Every);
    // @yearly is 0 0 1 1 *
    assert_eq!(es[2].dom.1, CronInterval::Multiple(vec![1]));
    assert_eq!(es[2].month.1, CronInterval::Multiple(vec![1]));
    // @weekly is 0 0 * * 0
    assert_eq!(es[3].dow.1, CronInterval::Multiple(vec![0]));
    assert_eq!(es[3].dom.1, CronInterval::Every);
    // @monthly is 0 0 1 * *
    assert_eq!(es[4].dom.1, CronInterval::Multiple(vec![1]));
    assert_eq!(es[4].month.1, CronInterval::Every);
}

#[test]
fn reboot_line_does_not_stop_parsing() {
    let es = parse_crontab("@reboot echo a\n0 0 * * * echo b\n@reboot echo c").expect("parses");
    assert_eq!(es.len(), 3);
    assert!(es[0].startup);
    assert_eq!(es[0].cmd, "echo a");
    assert!(!es[1].startup);
    assert_eq!(es[1].cmd, "echo b");
    assert!(es[2].startup);
    assert_eq!(es[2].cmd, "echo c");
}

// A step's candidates run up to, and exclude, the unit's maximum: even a
// divisible maximum is never selected.
#[test]
fn step_upper_bound_is_exclusive() {
    assert_eq!(
        parse_cron_time(&CronUnit::Hour, "*/23"),
        Ok(CronInterval::Multiple(vec![0]))
    );
    assert_eq!(
        parse_cron_time(&CronUnit::Hour, "*/4"),
        Ok(CronInterval::Multiple(vec![0, 4, 8, 12, 16, 20]))
    );
}

#[test]
fn parse_errors_carry_line_and_token() {
    let err = parse_crontab("# ok\n\n61 * * * * echo x").unwrap_err();
    assert_eq!(err.line, 2);
    assert_eq!(err.token, "61");
    assert_eq!(err.kind, ParseErrorKind::OutOfBounds);

    let err = parse_crontab("@fortnightly echo x").unwrap_err();
    assert_eq!(err.line, 0);
    assert_eq!(err.token, "@fortnightly");
    assert_eq!(err.kind, ParseErrorKind::UnknownSchedule);

    let err = parse_crontab("@reboot").unwrap_err();
    assert_eq!(err.kind, ParseErrorKind::MissingCommand);

    let err = parse_crontab("@daily").unwrap_err();
    assert_eq!(err.kind, ParseErrorKind::MissingCommand);

    let err = parse_crontab("* * *").unwrap_err();
    assert_eq!(err.kind, ParseErrorKind::MissingField);

    let err = parse_crontab("0 0 1 1 x echo y").unwrap_err();
    assert_eq!(err.line, 0);
    assert_eq!(err.token, "x");
    assert_eq!(err.kind, ParseErrorKind::NotAnInteger);
}

#[test]
fn parse_command_whitespace_is_normalized() {
    let es = parse_crontab("* * * * *   echo   spaced   out  ").expect("parses");
    assert_eq!(es.len(), 1);
    assert_eq!(es[0].cmd, "echo spaced out");
    // a command may be empty on a plain five-field line
    let es = parse_crontab("* * * * *").expect("parses");
    assert_eq!(es[0].cmd, "");
}

#[test]
fn bounds_predicate() {
    assert!(!is_out_of_bounds(5, 0, 59));
    assert!(!is_out_of_bounds(0, 0, 59));
    assert!(!is_out_of_bounds(59, 0, 59));
    assert!(is_out_of_bounds(60, 0, 59));
    assert!(is_out_of_bounds(0, 1, 31));
}
