use cczu_ical::reminder::{get_reminder, parse_decimal_i32, DEFAULT_REMINDER};

#[test]
fn reminder_reads_plain_number() {
    assert_eq!(get_reminder("30"), 30);
    assert_eq!(get_reminder("0"), 0);
    assert_eq!(get_reminder("0015"), 15);
}

#[test]
fn reminder_reads_signs() {
    assert_eq!(get_reminder("-5"), -5);
    assert_eq!(get_reminder("+7"), 7);
    assert_eq!(get_reminder("-2147483648"), i32::MIN);
    assert_eq!(get_reminder("2147483647"), i32::MAX);
}

#[test]
fn reminder_defaults_when_not_a_number() {
    assert_eq!(DEFAULT_REMINDER, 15);
    assert_eq!(get_reminder(""), 15);
    assert_eq!(get_reminder("abc"), 15);
    assert_eq!(get_reminder("-"), 15);
    assert_eq!(get_reminder("+"), 15);
    assert_eq!(get_reminder(" 5"), 15);
    assert_eq!(get_reminder("5 "), 15);
    assert_eq!(get_reminder("1e3"), 15);
    assert_eq!(get_reminder("--5"), 15);
}

#[test]
fn reminder_defaults_on_overflow() {
    assert_eq!(get_reminder("2147483648"), 15);
    assert_eq!(get_reminder("-2147483649"), 15);
    assert_eq!(get_reminder("99999999999999999999"), 15);
}

#[test]
fn parse_agrees_with_std() {
    for s in ["12", "-0", "+0", "007", "x1", "", "4294967296", "-2147483648", "１２"] {
        assert_eq!(parse_decimal_i32(s), s.parse::<i32>().ok(), "input {:?}", s);
    }
}

#[test]
fn written_number_reads_back() {
    for n in [0, 1, 9, 10, 15, 120, -1, -45, i32::MAX, i32::MIN] {
        assert_eq!(get_reminder(&n.to_string()), n);
    }
}
