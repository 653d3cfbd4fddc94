use cczu_ical::ical::{ICal, IcalError};
use cczu_ical::typeddata::{ClassInfo, Schedule, ScheduleElement};
use icalendar::{CalendarComponent, Component, EventLike};

fn schedule() -> Schedule {
    Schedule {
        classtime: vec![
            ScheduleElement { name: "1".to_string(), start_time: "0800".to_string(), end_time: "0845".to_string() },
            ScheduleElement { name: "2".to_string(), start_time: "0855".to_string(), end_time: "0940".to_string() },
        ],
    }
}

fn class(oe: usize, day: usize, weeks: &[&str], periods: &[usize]) -> ClassInfo {
    ClassInfo::new(
        "高等数学".to_string(),
        oe,
        day,
        weeks.iter().map(|w| w.to_string()).collect(),
        periods.to_vec(),
        "立德楼409".to_string(),
    )
}

#[test]
fn startdate_every_week() {
    let mut c = class(3, 1, &["1-2"], &[1]);
    c.with_startdate("20230904").unwrap();
    assert_eq!(c.daylist, vec!["20230904", "20230911"]);
}

#[test]
fn startdate_odd_and_even_weeks() {
    let mut odd = class(1, 3, &["1-4"], &[1]);
    odd.with_startdate("20230904").unwrap();
    assert_eq!(odd.daylist, vec!["20230906", "20230920"]);
    let mut even = class(2, 3, &["1-4", "6-6"], &[1]);
    even.with_startdate("20230904").unwrap();
    assert_eq!(even.daylist, vec!["20230913", "20230927", "20231011"]);
}

#[test]
fn startdate_errors() {
    let mut c = class(3, 1, &["1-2"], &[1]);
    assert_eq!(c.with_startdate("2023-09-04"), Err(IcalError::BadFirstWeekDate));
    assert!(c.daylist.is_empty());
    let mut d = class(3, 1, &["1~2"], &[1]);
    assert_eq!(d.with_startdate("20230904"), Err(IcalError::BadWeekRange));
    let mut e = class(3, 1, &["4294967295-4294967295"], &[1]);
    assert_eq!(e.with_startdate("20230904"), Err(IcalError::DateOutOfRange));
}

fn events(cal: &icalendar::Calendar) -> Vec<&icalendar::Event> {
    cal.components
        .iter()
        .map(|c| match c {
            CalendarComponent::Event(e) => e,
            _ => panic!("not an event"),
        })
        .collect()
}

#[test]
fn calendar_of_one_course() {
    let mut t = ICal::new("20230904".to_string(), vec![class(3, 1, &["1-2"], &[1, 2])], schedule());
    let cal = t.to_ical(15);
    assert_eq!(t.classlist[0].daylist, vec!["20230904", "20230911"]);
    assert_eq!(cal.property_value("VERSION"), Some("2.0"));
    assert_eq!(cal.property_value("X-WR-TIMEZONE"), Some("Asia/Shanghai"));
    let evs = events(&cal);
    assert_eq!(evs.len(), 2 + 19);
    let first = evs[0];
    assert_eq!(first.get_summary(), Some("高等数学 | 立德楼409"));
    assert_eq!(first.property_value("DTSTART"), Some("20230904T080000"));
    assert_eq!(first.property_value("DTEND"), Some("20230904T094000"));
    assert_eq!(first.property_value("TRANSP"), Some("OPAQUE"));
    assert!(first.get_uid().unwrap().ends_with("@gmail.com"));
    assert_eq!(first.components().len(), 1);
    assert_eq!(evs[1].property_value("DTSTART"), Some("20230911T080000"));
    let week1 = evs[2];
    assert_eq!(week1.get_summary(), Some("学期第 1 周"));
    assert_eq!(week1.property_value("DTSTART"), Some("20230904T000000"));
    assert_eq!(week1.property_value("DTEND"), Some("20230911T000000"));
    assert_eq!(week1.components().len(), 0);
    let week19 = evs[20];
    assert_eq!(week19.get_summary(), Some("学期第 19 周"));
    assert_eq!(week19.property_value("DTSTART"), Some("20240108T000000"));
    assert_eq!(week19.property_value("DTEND"), Some("20240115T000000"));
    let text = cal.to_string();
    assert!(text.contains("TRIGGER"));
    assert!(text.contains("This is an event reminder"));
}

#[test]
fn weeks_follow_each_other() {
    let mut t = ICal::new("20230904".to_string(), vec![], schedule());
    let (lists, weeks) = t.plan_events(10).unwrap();
    assert!(lists.is_empty());
    assert_eq!(weeks.len(), 19);
    for i in 0..18 {
        assert_eq!(weeks[i].end, weeks[i + 1].start);
        assert_eq!(weeks[i].reminder, None);
    }
    assert_eq!(weeks[0].start.date.day, 4);
    assert_eq!(weeks[0].start.hour, 0);
}

#[test]
fn plan_has_one_event_per_meeting() {
    let mut t = ICal::new(
        "20230904".to_string(),
        vec![class(1, 2, &["1-5"], &[2]), class(3, 5, &[], &[1])],
        schedule(),
    );
    let (lists, _) = t.plan_events(20).unwrap();
    assert_eq!(lists.len(), 2);
    assert_eq!(lists[0].len(), 3);
    assert_eq!(lists[1].len(), 0);
    assert_eq!(lists[0][0].reminder, Some(20));
    assert_eq!(lists[0][0].start.hour, 8);
    assert_eq!(lists[0][0].start.minute, 55);
    assert_eq!(lists[0][2].start.date.month, 10);
    assert_eq!(lists[0][2].start.date.day, 3);
}

#[test]
fn calendar_errors() {
    let mut a = ICal::new("20230904".to_string(), vec![class(3, 1, &["1-2"], &[])], schedule());
    assert_eq!(a.checked_to_ical(15).err(), Some(IcalError::NoPeriod));
    let mut b = ICal::new("20230904".to_string(), vec![class(3, 1, &["1-2"], &[3])], schedule());
    assert_eq!(b.checked_to_ical(15).err(), Some(IcalError::PeriodOutOfRange));
    let mut c = ICal::new("20230904".to_string(), vec![class(3, 1, &["1-2"], &[0])], schedule());
    assert_eq!(c.checked_to_ical(15).err(), Some(IcalError::PeriodOutOfRange));
    let mut bad = schedule();
    bad.classtime[0].start_time = "8:00".to_string();
    let mut d = ICal::new("20230904".to_string(), vec![class(3, 1, &["1-2"], &[1])], bad);
    assert_eq!(d.checked_to_ical(15).err(), Some(IcalError::BadClassTime));
    let mut e = ICal::new("not a date".to_string(), vec![], schedule());
    assert_eq!(e.checked_to_ical(15).err(), Some(IcalError::BadFirstWeekDate));
}

#[test]
fn checked_calendar_of_one_course() {
    let mut t = ICal::new("20230904".to_string(), vec![class(3, 1, &["1-2"], &[1, 2])], schedule());
    let cal = t.checked_to_ical(15).unwrap();
    assert_eq!(events(&cal).len(), 2 + 19);
    assert_eq!(t.classlist[0].daylist, vec!["20230904", "20230911"]);
}

#[test]
fn uids_and_stamps_have_their_shapes() {
    let mut t = ICal::new("20230904".to_string(), vec![class(3, 1, &["1-2"], &[1, 2])], schedule());
    let cal = t.to_ical(15);
    let evs = events(&cal);
    let mut uids: Vec<String> = Vec::new();
    for e in evs.iter() {
        let uid = e.get_uid().unwrap();
        let u: Vec<char> = uid.strip_suffix("@gmail.com").unwrap().chars().collect();
        assert_eq!(u.len(), 36);
        assert_eq!(u[14], '4');
        assert!("89ab".contains(u[19]));
        assert!(u.iter().enumerate().all(|(i, c)| if [8, 13, 18, 23].contains(&i) {
            *c == '-'
        } else {
            c.is_ascii_digit() || ('a'..='f').contains(c)
        }));
        uids.push(uid.to_string());
        let stamp: Vec<char> = e.property_value("DTSTAMP").unwrap().chars().collect();
        assert_eq!(stamp.len(), 16);
        assert_eq!(stamp[8], 'T');
        assert_eq!(stamp[15], 'Z');
        assert!(stamp[..8].iter().chain(stamp[9..15].iter()).all(|c| c.is_ascii_digit()));
    }
    uids.sort();
    uids.dedup();
    assert_eq!(uids.len(), evs.len());
}

#[test]
fn events_of_a_course_share_a_stamp() {
    let mut t = ICal::new(
        "20230904".to_string(),
        vec![class(3, 1, &["1-3"], &[1, 2]), class(3, 2, &["1-2"], &[2])],
        schedule(),
    );
    let cal = t.to_ical(15);
    let evs = events(&cal);
    assert_eq!(evs.len(), 3 + 2 + 19);
    let stamp = |i: usize| evs[i].property_value("DTSTAMP").unwrap().to_string();
    assert_eq!(stamp(0), stamp(1));
    assert_eq!(stamp(0), stamp(2));
    assert_eq!(stamp(3), stamp(4));
    for j in 5..24 {
        assert_eq!(stamp(j), stamp(5));
    }
}
