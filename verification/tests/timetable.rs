use cczu_ical::timetable::{class_table, TableError};
use cczu_ical::typeddata::ClassInfo;

fn names() -> Vec<String> {
    vec!["高等数学".to_string(), "大学英语".to_string(), "C/C++程序设计".to_string()]
}

fn row(cells: [&str; 7]) -> Vec<String> {
    cells.iter().map(|c| c.to_string()).collect()
}

const E: &str = "&nbsp;";

fn sample_rows() -> Vec<Vec<String>> {
    vec![
        row([
            "高等数学 立德楼409 1-16,",
            E,
            "大学英语 文科楼101 单 1-15,/高等数学 立德楼409 双 2-16,",
            "C/C++程序设计 实验楼A203 1-8,10-12,",
            E,
            "",
            E,
        ]),
        row(["高等数学 立德楼409 1-16,", E, E, E, E, E, E]),
    ]
}

fn check(c: &ClassInfo, name: &str, oe: usize, day: usize, week: &[&str], classtime: &[usize], room: &str) {
    assert_eq!(c.name, name);
    assert_eq!(c.oe, oe);
    assert_eq!(c.day, day);
    assert_eq!(c.week, week.iter().map(|w| w.to_string()).collect::<Vec<_>>());
    assert_eq!(c.classtime, classtime.to_vec());
    assert_eq!(c.classroom, room);
    assert!(c.daylist.is_empty());
}

#[test]
fn reads_sample_table() {
    let cs = class_table(&names(), &sample_rows()).unwrap();
    assert_eq!(cs.len(), 4);
    check(&cs[0], "高等数学", 3, 1, &["1-16"], &[1, 2], "立德楼409");
    check(&cs[1], "大学英语", 1, 3, &["1-15"], &[1], "文科楼101");
    check(&cs[2], "高等数学", 2, 3, &["2-16"], &[1], "立德楼409");
    check(&cs[3], "C/C++程序设计", 3, 4, &["1-8", "10-12"], &[1], "实验楼A203");
}

#[test]
fn records_stay_within_the_grid() {
    let rows = sample_rows();
    let cs = class_table(&names(), &rows).unwrap();
    for c in &cs {
        assert!(1 <= c.day && c.day <= 7);
        assert!(!c.classtime.is_empty());
        for t in &c.classtime {
            assert!(1 <= *t && *t <= rows.len());
        }
    }
}

#[test]
fn empty_grid_gives_no_classes() {
    assert!(class_table(&names(), &vec![]).unwrap().is_empty());
    let rows = vec![row([E, E, "", E, "/", E, E])];
    assert!(class_table(&names(), &rows).unwrap().is_empty());
}

#[test]
fn short_row_is_refused() {
    let rows = vec![vec![E.to_string(); 6]];
    assert_eq!(class_table(&names(), &rows).err(), Some(TableError::ShortRow));
}

#[test]
fn unknown_course_is_refused() {
    let rows = vec![row(["物理 A101 1-2,", E, E, E, E, E, E])];
    assert_eq!(class_table(&names(), &rows).err(), Some(TableError::UnknownCourse));
}

#[test]
fn malformed_course_is_refused() {
    let rows = vec![row(["高等数学 立德楼", E, E, E, E, E, E])];
    assert_eq!(class_table(&names(), &rows).err(), Some(TableError::MalformedCourse));
}

#[test]
fn first_period_rebuilds_record() {
    let twice = "高等数学 立德楼409 1-8,/高等数学 立德楼409 1-8,";
    let rows = vec![row([twice, E, E, E, E, E, E]), row([twice, E, E, E, E, E, E])];
    let cs = class_table(&names(), &rows).unwrap();
    assert_eq!(cs.len(), 1);
    check(&cs[0], "高等数学", 3, 1, &["1-8"], &[1, 2, 2], "立德楼409");
}

#[test]
fn later_period_of_same_entry_adds_period() {
    let rows = vec![
        row(["大学英语 文科楼101 1-16,", E, E, E, E, E, E]),
        row([E, E, E, E, E, E, E]),
        row(["大学英语 文科楼101 1-16,", E, E, E, E, E, E]),
    ];
    let cs = class_table(&names(), &rows).unwrap();
    assert_eq!(cs.len(), 1);
    check(&cs[0], "大学英语", 3, 1, &["1-16"], &[1, 3], "文科楼101");
}

#[test]
fn periods_come_in_order() {
    let rows = vec![
        row(["高等数学 立德楼409 1-16,", "&nbsp;", "&nbsp;", "&nbsp;", "&nbsp;", "&nbsp;", "&nbsp;"]),
        row(["高等数学 立德楼409 1-16,/高等数学 立德楼409 1-16,", "&nbsp;", "&nbsp;", "&nbsp;", "&nbsp;", "&nbsp;", "&nbsp;"]),
        row(["高等数学 立德楼409 1-16,", "&nbsp;", "&nbsp;", "&nbsp;", "&nbsp;", "&nbsp;", "&nbsp;"]),
    ];
    let cs = class_table(&names(), &rows).unwrap();
    assert_eq!(cs.len(), 1);
    assert_eq!(cs[0].classtime, vec![1, 2, 2, 3]);
    for c in &cs {
        assert!(c.classtime.windows(2).all(|w| w[0] <= w[1]));
    }
}

#[test]
fn record_names_come_from_the_list() {
    let list = names();
    let cs = class_table(&list, &sample_rows()).unwrap();
    for c in &cs {
        assert!(list.contains(&c.name));
    }
}
