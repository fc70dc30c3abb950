use rust_q_sim::time_format::{parse_time, parse_time_opt, try_parse_time};

#[test]
fn parses_times_of_day() {
    assert_eq!(45_005, parse_time("12:30:05"));
    assert_eq!(0, parse_time("00:00:00"));
    assert_eq!(86_400, parse_time("24:00:00"));
    assert_eq!(3_723, parse_time("1:2:3"));
}

#[test]
fn refuses_what_is_not_a_time() {
    assert_eq!(None, try_parse_time("12:30"));
    assert_eq!(None, try_parse_time("12:30:05:01"));
    assert_eq!(None, try_parse_time("aa:00:00"));
    assert_eq!(None, try_parse_time("::"));
    assert_eq!(None, try_parse_time(""));
    assert_eq!(None, try_parse_time("1:-2:3"));
    assert_eq!(Some(45_005), try_parse_time("12:30:05"));
}

#[test]
fn largest_time() {
    assert_eq!(u32::MAX, parse_time("1193046:28:15"));
    assert_eq!(None, try_parse_time("1193046:28:16"));
    assert_eq!(None, try_parse_time("99999999999999999999:00:00"));
}

#[test]
fn optional_times() {
    assert_eq!(None, parse_time_opt(&None));
    assert_eq!(Some(60), parse_time_opt(&Some("00:01:00".to_string())));
}
