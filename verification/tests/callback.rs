use cczu_ical::callback::JsonCallback;

#[test]
fn callback_new_and_default() {
    let c = JsonCallback::new("x".to_string(), true);
    assert_eq!(c.data, "x");
    assert!(c.ok);
    let d = JsonCallback::default();
    assert_eq!(d.data, "");
    assert!(!d.ok);
}

#[test]
fn callback_ok_then_err() {
    let mut c = JsonCallback::default();
    c.ok("BEGIN:VCALENDAR".to_string());
    assert!(c.ok);
    assert_eq!(c.data, "BEGIN:VCALENDAR");
    let r = c.err("login failed".to_string());
    assert!(!r.ok);
    assert_eq!(r.data, "login failed");
    assert!(!c.ok);
}
