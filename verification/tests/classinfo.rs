use cczu_ical::typeddata::ClassInfo;

fn info(weeks: &[&str]) -> ClassInfo {
    ClassInfo::new(
        "高等数学".to_string(),
        3,
        1,
        weeks.iter().map(|w| w.to_string()).collect(),
        vec![1],
        "立德楼409".to_string(),
    )
}

#[test]
fn new_keeps_fields() {
    let c = info(&["1-16"]);
    assert_eq!(c.name, "高等数学");
    assert_eq!(c.oe, 3);
    assert_eq!(c.day, 1);
    assert_eq!(c.week, vec!["1-16".to_string()]);
    assert_eq!(c.classtime, vec![1]);
    assert_eq!(c.classroom, "立德楼409");
    assert!(c.daylist.is_empty());
}

#[test]
fn add_classtime_and_week_append() {
    let mut c = info(&["1-8"]);
    c.add_classtime(2);
    c.add_week("10-16".to_string());
    assert_eq!(c.classtime, vec![1, 2]);
    assert_eq!(c.week, vec!["1-8".to_string(), "10-16".to_string()]);
}

#[test]
fn merge_adds_missing_weeks_once() {
    let mut a = info(&["1-8", "10-12"]);
    let b = info(&["10-12", "14-16", "14-16", "1-8", "17-18"]);
    a.merge(&b);
    assert_eq!(a.week, vec!["1-8", "10-12", "14-16", "17-18"]);
    assert_eq!(a.classtime, vec![1]);
}

#[test]
fn merge_twice_changes_nothing() {
    let mut a = info(&["1-8"]);
    let b = info(&["9-16", "1-8"]);
    a.merge(&b);
    let once = a.week.clone();
    a.merge(&b);
    assert_eq!(a.week, once);
}

#[test]
fn merge_returns_the_record() {
    let mut a = info(&[]);
    let b = info(&["3-4"]);
    let r = a.merge(&b);
    r.add_classtime(5);
    assert_eq!(a.week, vec!["3-4"]);
    assert_eq!(a.classtime, vec![1, 5]);
}

#[test]
fn identify_is_uuid_of_identity() {
    let c = info(&["1-16"]);
    let expected = uuid::Uuid::new_v3(&uuid::Uuid::NAMESPACE_DNS, "高等数学-3-1-立德楼409".as_bytes()).to_string();
    assert_eq!(c.identify(), expected);
}

#[test]
fn identify_ignores_meetings() {
    let a = info(&["1-16"]);
    let mut b = info(&["2-3"]);
    b.add_classtime(4);
    assert_eq!(a.identify(), b.identify());
    let mut other = info(&["1-16"]);
    other.day = 2;
    assert_ne!(a.identify(), other.identify());
}

#[test]
fn identify_has_version_3_shape() {
    let id: Vec<char> = info(&["1-16"]).identify().chars().collect();
    assert_eq!(id.len(), 36);
    for (i, c) in id.iter().enumerate() {
        if i == 8 || i == 13 || i == 18 || i == 23 {
            assert_eq!(*c, '-');
        } else {
            assert!(c.is_ascii_digit() || ('a'..='f').contains(c));
        }
    }
    assert_eq!(id[14], '3');
    assert!("89ab".contains(id[19]));
}
