//! iCalendar documents, through the `icalendar` crate. A calendar is known by
//! its top-level properties and its events; an event by its properties (name
//! to value; setting a name again replaces the value) and its display alarms.
use vstd::prelude::*;
use crate::civil::{datetime_valid, ymd_digits, CivilDate, CivilDateTime};
use crate::text::{padded, uuid_shaped};

verus! {

#[verifier::external_type_specification]
#[verifier::external_body]
pub struct ExCalendar(icalendar::Calendar);

/// The type that `Calendar::push` converts an event into.
#[verifier::external_type_specification]
#[verifier::external_body]
pub struct ExCalendarComponent(icalendar::CalendarComponent);

#[verifier::external_type_specification]
#[verifier::external_body]
pub struct ExEvent(icalendar::Event);

/// The properties of an event, by name.
pub type PropertyMap = Map<Seq<char>, Seq<char>>;

/// The display alarms of an event: description and minutes before the start.
pub type AlarmList = Seq<(Seq<char>, i32)>;

/// The top-level properties of a calendar, in order, as name and value.
pub uninterp spec fn calendar_properties(c: icalendar::Calendar) -> Seq<(Seq<char>, Seq<char>)>;

/// The events of a calendar, in order, each as its properties and alarms.
pub uninterp spec fn calendar_events(c: icalendar::Calendar) -> Seq<(PropertyMap, AlarmList)>;

/// The properties of an event.
pub uninterp spec fn event_properties(e: icalendar::Event) -> PropertyMap;

/// The display alarms of an event.
pub uninterp spec fn event_alarms(e: icalendar::Event) -> AlarmList;

/// The text that `icalendar` gives a floating date-time property: what
/// `chrono::NaiveDateTime::format("%Y%m%dT%H%M%S")` writes.
pub uninterp spec fn floating_datetime_text(t: CivilDateTime) -> Seq<char>;

/// `t` written `YYYYMMDDTHHMMSS` in zero-padded digits.
pub open spec fn datetime_digits(t: CivilDateTime) -> Seq<char> {
    ymd_digits(t.date) + seq!['T'] + padded(t.hour as nat, 2) + padded(t.minute as nat, 2) + padded(
        t.second as nat,
        2,
    )
}

/// The text of a floating date-time property: the digits for a year from 0
/// to 9999; for other years (which chrono writes with a sign) the text is named.
pub open spec fn datetime_text(t: CivilDateTime) -> Seq<char> {
    if 0 <= t.date.year <= 9999 {
        datetime_digits(t)
    } else {
        floating_datetime_text(t)
    }
}

/// The text of a UTC time stamp: `%Y%m%dT%H%M%SZ` is the floating format
/// followed by `Z`.
pub open spec fn utc_stamp_text(t: CivilDateTime) -> Seq<char> {
    datetime_text(t) + seq!['Z']
}

/// The properties that `icalendar::Calendar::new` starts with.
pub open spec fn default_calendar_properties() -> Seq<(Seq<char>, Seq<char>)> {
    seq![("VERSION"@, "2.0"@), ("PRODID"@, "ICALENDAR-RS"@), ("CALSCALE"@, "GREGORIAN"@)]
}

/// `icalendar::Calendar::new`: the three default properties and no events.
#[verifier::external_body]
pub(crate) fn new_calendar() -> (c: icalendar::Calendar)
    ensures
        calendar_properties(c) == default_calendar_properties(),
        calendar_events(c) == Seq::<(PropertyMap, AlarmList)>::empty(),
{
    icalendar::Calendar::new()
}

/// `icalendar::Calendar::append_property` with `Property::new(key, value)`:
/// the property goes last.
#[verifier::external_body]
pub(crate) fn calendar_add_property(c: &mut icalendar::Calendar, key: &str, value: &str)
    ensures
        calendar_properties(*final(c)) == calendar_properties(*old(c)).push((key@, value@)),
        calendar_events(*final(c)) == calendar_events(*old(c)),
{
    c.append_property(icalendar::Property::new(key, value));
}

/// `icalendar::Calendar::push` of an event: the event goes last.
#[verifier::external_body]
pub(crate) fn calendar_push_event(c: &mut icalendar::Calendar, e: icalendar::Event)
    ensures
        calendar_properties(*final(c)) == calendar_properties(*old(c)),
        calendar_events(*final(c)) == calendar_events(*old(c)).push(
            (event_properties(e), event_alarms(e)),
        ),
{
    c.push(e);
}

/// `icalendar::Event::new`: no properties, no alarms.
#[verifier::external_body]
pub(crate) fn new_event() -> (e: icalendar::Event)
    ensures
        event_properties(e) =~= Map::empty(),
        event_alarms(e) == Seq::<(Seq<char>, i32)>::empty(),
{
    icalendar::Event::new()
}

/// `icalendar::Component::add_property`: sets property `key` to `value`,
/// replacing an earlier value.
#[verifier::external_body]
pub(crate) fn event_add_property(e: &mut icalendar::Event, key: &str, value: &str)
    ensures
        event_properties(*final(e)) == event_properties(*old(e)).insert(key@, value@),
        event_alarms(*final(e)) == event_alarms(*old(e)),
{
    icalendar::Component::add_property(e, key, value);
}

/// `icalendar::EventLike::starts` with a floating date-time: sets `DTSTART`.
#[verifier::external_body]
pub(crate) fn event_starts(e: &mut icalendar::Event, t: CivilDateTime)
    requires
        datetime_valid(t),
    ensures
        event_properties(*final(e)) == event_properties(*old(e)).insert(
            "DTSTART"@,
            if 0 <= t.date.year <= 9999 {
                datetime_digits(t)
            } else {
                floating_datetime_text(t)
            },
        ),
        event_alarms(*final(e)) == event_alarms(*old(e)),
{
    let d = chrono::NaiveDate::from_ymd_opt(t.date.year, t.date.month, t.date.day).unwrap();
    icalendar::EventLike::starts(e, d.and_hms_opt(t.hour, t.minute, t.second).unwrap());
}

/// `icalendar::EventLike::ends` with a floating date-time: sets `DTEND`.
#[verifier::external_body]
pub(crate) fn event_ends(e: &mut icalendar::Event, t: CivilDateTime)
    requires
        datetime_valid(t),
    ensures
        event_properties(*final(e)) == event_properties(*old(e)).insert(
            "DTEND"@,
            if 0 <= t.date.year <= 9999 {
                datetime_digits(t)
            } else {
                floating_datetime_text(t)
            },
        ),
        event_alarms(*final(e)) == event_alarms(*old(e)),
{
    let d = chrono::NaiveDate::from_ymd_opt(t.date.year, t.date.month, t.date.day).unwrap();
    icalendar::EventLike::ends(e, d.and_hms_opt(t.hour, t.minute, t.second).unwrap());
}

/// `icalendar::EventLike::alarm` with `Alarm::display(description,
/// Trigger::before_start(TimeDelta::minutes(minutes)))`: the alarm goes last.
#[verifier::external_body]
pub(crate) fn event_display_alarm(e: &mut icalendar::Event, description: &str, minutes: i32)
    ensures
        event_properties(*final(e)) == event_properties(*old(e)),
        event_alarms(*final(e)) == event_alarms(*old(e)).push((description@, minutes)),
{
    icalendar::EventLike::alarm(
        e,
        icalendar::Alarm::display(
            description,
            icalendar::Trigger::before_start(chrono::TimeDelta::minutes(minutes as i64)),
        ),
    );
}

/// `icalendar::Component::summary`: sets `SUMMARY`.
#[verifier::external_body]
pub(crate) fn event_summary(e: &mut icalendar::Event, text: &str)
    ensures
        event_properties(*final(e)) == event_properties(*old(e)).insert("SUMMARY"@, text@),
        event_alarms(*final(e)) == event_alarms(*old(e)),
{
    icalendar::Component::summary(e, text);
}

/// `icalendar::Component::uid`: sets `UID`.
#[verifier::external_body]
pub(crate) fn event_uid(e: &mut icalendar::Event, uid: &str)
    ensures
        event_properties(*final(e)) == event_properties(*old(e)).insert("UID"@, uid@),
        event_alarms(*final(e)) == event_alarms(*old(e)),
{
    icalendar::Component::uid(e, uid);
}

/// `icalendar::Component::timestamp` with the UTC time `t`: sets `DTSTAMP`
/// to `t` written `%Y%m%dT%H%M%SZ`.
#[verifier::external_body]
pub(crate) fn event_timestamp(e: &mut icalendar::Event, t: CivilDateTime)
    requires
        datetime_valid(t),
    ensures
        event_properties(*final(e)) == event_properties(*old(e)).insert(
            "DTSTAMP"@,
            utc_stamp_text(t),
        ),
        event_alarms(*final(e)) == event_alarms(*old(e)),
{
    let d = chrono::NaiveDate::from_ymd_opt(t.date.year, t.date.month, t.date.day).unwrap();
    let n = d.and_hms_opt(t.hour, t.minute, t.second).unwrap();
    icalendar::Component::timestamp(e, n.and_utc());
}

/// `chrono::Utc::now`, to the second, as plain numbers. It is the time of
/// the call: nothing is promised but that chrono can hold it.
#[verifier::external_body]
pub(crate) fn utc_now() -> (t: CivilDateTime)
    ensures
        datetime_valid(t),
{
    let n = chrono::Utc::now().naive_utc();
    CivilDateTime {
        date: CivilDate {
            year: chrono::Datelike::year(&n),
            month: chrono::Datelike::month(&n),
            day: chrono::Datelike::day(&n),
        },
        hour: chrono::Timelike::hour(&n),
        minute: chrono::Timelike::minute(&n),
        second: chrono::Timelike::second(&n),
    }
}

/// `uuid::Uuid::new_v4`, hyphenated. It is random: all that is promised is
/// the shape of a version-4 UUID, which `new_v4` sets and `Display` writes.
#[verifier::external_body]
pub(crate) fn random_uuid_text() -> (u: String)
    ensures
        uuid_shaped(u@, '4'),
{
    uuid::Uuid::new_v4().to_string()
}

} // verus!
