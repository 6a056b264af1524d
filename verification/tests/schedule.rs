use gec_uplink::schedule::{due, parse_hhmm, CalendarDay, TimeOfDay};

fn t(h: u32, m: u32) -> TimeOfDay {
    TimeOfDay { secs: h * 3600 + m * 60 }
}

fn d(year: i32, month: u32, day: u32) -> CalendarDay {
    CalendarDay { year, month, day }
}

#[test]
fn parses_valid_and_rejects_garbage() {
    assert_eq!(parse_hhmm("03:00"), Some(t(3, 0)));
    assert_eq!(parse_hhmm("23:59"), Some(t(23, 59)));
    assert_eq!(parse_hhmm("nope"), None);
    assert_eq!(parse_hhmm("25:00"), None);
    assert_eq!(parse_hhmm("3"), None);
}

#[test]
fn due_only_after_target_and_once_per_day() {
    let today = d(2026, 7, 15);
    assert!(!due(t(2, 59), today, "03:00", None));
    assert!(due(t(3, 0), today, "03:00", None));
    assert!(due(t(9, 0), today, "03:00", None));
    assert!(!due(t(9, 0), today, "03:00", Some(today)));
    assert!(due(t(9, 0), today, "03:00", Some(d(2026, 7, 14))));
    assert!(!due(t(9, 0), today, "oops", None));
}

#[test]
fn white_space_around_the_numbers_is_allowed() {
    assert_eq!(parse_hhmm(" 7 : 05 "), Some(t(7, 5)));
    assert_eq!(parse_hhmm("07:60"), None);
    assert_eq!(parse_hhmm("07:"), None);
    assert_eq!(parse_hhmm("-1:00"), None);
    assert_eq!(parse_hhmm("+3:00"), None);
    assert_eq!(parse_hhmm("3:+5"), None);
    assert_eq!(parse_hhmm("1:2:3"), None);
}
