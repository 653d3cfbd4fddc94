//! The timetable as a calendar: one event per meeting of each course, with a
//! reminder, and one all-week event for each week of the semester.
use vstd::prelude::*;
use crate::civil::{
    add_days, chrono_add_days, chrono_parse_date, chrono_parse_datetime, date_valid,
    datetime_valid, format_date, midnight, parse_date, parse_datetime, ymd_format, ymd_text,
    ymdhm_format, CivilDate, CivilDateTime,
};
use crate::reminder::{all_digits, digits_value, digits_within};
use crate::text::{chars_of, decimal, push_char, push_decimal, uuid_shaped};
use crate::calendar::{
    calendar_add_property, calendar_events, calendar_properties, calendar_push_event,
    default_calendar_properties, event_add_property, event_alarms, event_display_alarm,
    event_ends, event_properties, event_starts, event_summary, event_timestamp, event_uid,
    datetime_text, new_calendar, new_event, random_uuid_text, utc_now, utc_stamp_text, AlarmList,
    PropertyMap,
};
use crate::typeddata::{ClassInfo, ClassView, Schedule};

verus! {

/// Why the calendar cannot be built.
#[derive(Debug, PartialEq, Eq, Structural)]
pub enum IcalError {
    /// The first day of the semester is not a date written `YYYYMMDD`.
    BadFirstWeekDate,
    /// A week range of a course is not written `first-last`.
    BadWeekRange,
    /// A date falls outside the range of the calendar.
    DateOutOfRange,
    /// A course has no period.
    NoPeriod,
    /// A period of a course is not in the bell schedule.
    PeriodOutOfRange,
    /// A meeting date and a schedule time do not make a time `YYYYMMDDHHMM`.
    BadClassTime,
}

/// Whether `p` is the position of the first `-` in `s`.
pub open spec fn is_first_dash(s: Seq<char>, p: int) -> bool {
    &&& 0 <= p < s.len()
    &&& s[p] == '-'
    &&& forall|j: int| 0 <= j < p ==> #[trigger] s[j] != '-'
}

/// The number that `t` spells: one or more ASCII digits, at most `u32::MAX`.
pub open spec fn number_text(t: Seq<char>) -> Option<nat> {
    if t.len() > 0 && all_digits(t) && digits_value(t) <= u32::MAX {
        Some(digits_value(t))
    } else {
        None
    }
}

/// A week range `first-last`: the numbers before and after the first `-`.
pub open spec fn week_range(s: Seq<char>) -> Option<(nat, nat)> {
    if exists|p: int| is_first_dash(s, p) {
        let p = choose|p: int| is_first_dash(s, p);
        match (number_text(s.take(p)), number_text(s.skip(p + 1))) {
            (Some(a), Some(b)) => Some((a, b)),
            _ => None,
        }
    } else {
        None
    }
}

/// Whether a course with odd/even code `oe` meets in week `w`.
pub open spec fn week_included(oe: usize, w: nat) -> bool {
    if oe == 1 {
        w % 2 == 1
    } else if oe == 2 {
        w % 2 == 0
    } else {
        true
    }
}

/// Days from the first day of the semester to day `day` (Monday = 1) of week `w`.
pub open spec fn day_offset(w: nat, day: usize) -> int {
    7 * (w - 1) + (day - 1)
}

/// Offsets beyond this many days lie outside every calendar range.
pub open spec fn offset_limit() -> int {
    100_000_000_000
}

/// The date (`YYYYMMDD`) of day `day` of week `w`, the semester starting on `first`.
pub open spec fn meeting_date(first: CivilDate, w: nat, day: usize) -> Option<Seq<char>> {
    let off = day_offset(w, day);
    if -offset_limit() <= off <= offset_limit() {
        match chrono_add_days(first, off as i64) {
            Some(d) => Some(ymd_text(d)),
            None => None,
        }
    } else {
        None
    }
}

/// The meeting dates in the `n` weeks from week `a` on.
pub open spec fn weeks_dates(first: CivilDate, oe: usize, day: usize, a: nat, n: nat) -> Result<
    Seq<Seq<char>>,
    IcalError,
>
    decreases n,
{
    if n == 0 {
        Ok(seq![])
    } else {
        match weeks_dates(first, oe, day, a, (n - 1) as nat) {
            Err(e) => Err(e),
            Ok(ds) => {
                let w = a + n - 1;
                if !week_included(oe, w as nat) {
                    Ok(ds)
                } else {
                    match meeting_date(first, w as nat, day) {
                        None => Err(IcalError::DateOutOfRange),
                        Some(t) => Ok(ds.push(t)),
                    }
                }
            },
        }
    }
}

/// How many weeks the range `a-b` spans.
pub open spec fn range_count(a: nat, b: nat) -> nat {
    if b >= a {
        (b - a + 1) as nat
    } else {
        0
    }
}

/// The meeting dates of course `c` in its first `k` week ranges.
pub open spec fn class_dates(first: CivilDate, c: ClassView, k: nat) -> Result<
    Seq<Seq<char>>,
    IcalError,
>
    decreases k,
{
    if k == 0 {
        Ok(seq![])
    } else {
        match class_dates(first, c, (k - 1) as nat) {
            Err(e) => Err(e),
            Ok(ds) => match week_range(c.week[k - 1]) {
                None => Err(IcalError::BadWeekRange),
                Some((a, b)) => match weeks_dates(first, c.oe, c.day, a, range_count(a, b)) {
                    Err(e) => Err(e),
                    Ok(more) => Ok(ds + more),
                },
            },
        }
    }
}

/// The meeting dates of course `c` in a semester whose first day is written
/// `first_text`: for each week range in turn, each week it meets in, in order.
pub open spec fn daylist_for(first_text: Seq<char>, c: ClassView) -> Result<
    Seq<Seq<char>>,
    IcalError,
> {
    match chrono_parse_date(first_text, ymd_format()) {
        None => Err(IcalError::BadFirstWeekDate),
        Some(first) => class_dates(first, c, c.week.len()),
    }
}

proof fn lemma_weeks_err_persists(
    first: CivilDate,
    oe: usize,
    day: usize,
    a: nat,
    n: nat,
    m: nat,
)
    requires
        weeks_dates(first, oe, day, a, n) is Err,
        n <= m,
    ensures
        weeks_dates(first, oe, day, a, m) == weeks_dates(first, oe, day, a, n),
    decreases m - n,
{
    if n < m {
        lemma_weeks_err_persists(first, oe, day, a, n, (m - 1) as nat);
    }
}

proof fn lemma_class_dates_err_persists(first: CivilDate, c: ClassView, k: nat, m: nat)
    requires
        class_dates(first, c, k) is Err,
        k <= m,
    ensures
        class_dates(first, c, m) == class_dates(first, c, k),
    decreases m - k,
{
    if k < m {
        lemma_class_dates_err_persists(first, c, k, (m - 1) as nat);
    }
}

/// A course that meets every week has one date per week of each range.
pub proof fn law_every_week_meets(first: CivilDate, oe: usize, day: usize, a: nat, n: nat)
    requires
        oe != 1,
        oe != 2,
    ensures
        weeks_dates(first, oe, day, a, n) matches Ok(ds) ==> ds.len() == n,
    decreases n,
{
    if n > 0 {
        law_every_week_meets(first, oe, day, a, (n - 1) as nat);
    }
}

/// A course of odd weeks only meets in no even week, and one of even weeks
/// only in no odd week: the dates of range `a..a+n` number the weeks of the
/// right parity in it.
pub proof fn law_parity_weeks(first: CivilDate, oe: usize, day: usize, a: nat, n: nat)
    requires
        oe == 1 || oe == 2,
    ensures
        weeks_dates(first, oe, day, a, n) matches Ok(ds) ==> ds.len() == parity_count(oe, a, n),
    decreases n,
{
    if n > 0 {
        law_parity_weeks(first, oe, day, a, (n - 1) as nat);
    }
}

/// `t` is the date of a meeting of course `c` in a semester whose first
/// Monday is `first`: for some week `w` of its `k`-th week range, of the
/// parity that its odd/even code asks for, `t` is the date `7(w-1) + (day-1)`
/// days after `first`, written `YYYYMMDD`.
pub open spec fn is_meeting(first: CivilDate, c: ClassView, k: int, w: nat, t: Seq<char>) -> bool {
    &&& 0 <= k < c.week.len()
    &&& week_range(c.week[k]) matches Some((a, b)) && a <= w <= b
    &&& (c.oe == 1 ==> w % 2 == 1)
    &&& (c.oe == 2 ==> w % 2 == 0)
    &&& chrono_add_days(first, (7 * (w - 1) + c.day - 1) as i64) matches Some(d) && t == ymd_text(d)
}

/// `t` is the date of a meeting of `c` in some week of its `k`-th week range.
pub open spec fn meets_in_range(first: CivilDate, c: ClassView, k: int, t: Seq<char>) -> bool {
    exists|w: nat| #[trigger] is_meeting(first, c, k, w, t)
}

/// `t` is the date of a meeting of `c` in some week of one of its week ranges.
pub open spec fn is_meeting_date(first: CivilDate, c: ClassView, t: Seq<char>) -> bool {
    exists|k: int| #[trigger] meets_in_range(first, c, k, t)
}

proof fn lemma_weeks_dates_meet(first: CivilDate, c: ClassView, k: int, a: nat, b: nat, n: nat)
    requires
        0 <= k < c.week.len(),
        week_range(c.week[k]) == Some((a, b)),
        n <= range_count(a, b),
    ensures
        weeks_dates(first, c.oe, c.day, a, n) matches Ok(ds) ==> forall|i: int|
            0 <= i < ds.len() ==> #[trigger] meets_in_range(first, c, k, ds[i]),
    decreases n,
{
    if n > 0 {
        lemma_weeks_dates_meet(first, c, k, a, b, (n - 1) as nat);
        if let Ok(ds) = weeks_dates(first, c.oe, c.day, a, n) {
            let prev = weeks_dates(first, c.oe, c.day, a, (n - 1) as nat)->Ok_0;
            let w = (a + n - 1) as nat;
            assert(a <= w <= b);
            if week_included(c.oe, w) {
                let t = meeting_date(first, w, c.day)->Some_0;
                assert(ds == prev.push(t));
                assert(is_meeting(first, c, k, w, t));
                assert forall|i: int| 0 <= i < ds.len() implies #[trigger] meets_in_range(
                    first,
                    c,
                    k,
                    ds[i],
                ) by {
                    if i < prev.len() {
                        assert(ds[i] == prev[i]);
                        assert(meets_in_range(first, c, k, prev[i]));
                    } else {
                        assert(ds[i] == t);
                    }
                }
            } else {
                assert(ds == prev);
                assert forall|i: int| 0 <= i < ds.len() implies #[trigger] meets_in_range(
                    first,
                    c,
                    k,
                    ds[i],
                ) by {
                    assert(meets_in_range(first, c, k, prev[i]));
                }
            }
        }
    }
}

proof fn lemma_class_dates_meet(first: CivilDate, c: ClassView, k: nat)
    requires
        k <= c.week.len(),
    ensures
        class_dates(first, c, k) matches Ok(ds) ==> forall|i: int|
            0 <= i < ds.len() ==> #[trigger] is_meeting_date(first, c, ds[i]),
    decreases k,
{
    if k > 0 {
        lemma_class_dates_meet(first, c, (k - 1) as nat);
        if let Ok(ds) = class_dates(first, c, k) {
            let prev = class_dates(first, c, (k - 1) as nat)->Ok_0;
            let (a, b) = week_range(c.week[k - 1])->Some_0;
            let more = weeks_dates(first, c.oe, c.day, a, range_count(a, b))->Ok_0;
            lemma_weeks_dates_meet(first, c, k - 1, a, b, range_count(a, b));
            assert(ds == prev + more);
            assert forall|i: int| 0 <= i < ds.len() implies #[trigger] is_meeting_date(first, c, ds[i]) by {
                if i < prev.len() {
                    assert(ds[i] == prev[i]);
                    assert(is_meeting_date(first, c, prev[i]));
                } else {
                    let j = i - prev.len();
                    assert(ds[i] == more[j]);
                    assert(meets_in_range(first, c, k - 1, more[j]));
                }
            }
        }
    }
}

/// Every meeting date computed for a course is the day of the week of the
/// course in one of its weeks: `7(w-1) + (day-1)` days after the first
/// Monday, for a week `w` of one of its week ranges with the right parity.
/// So a Monday course meets on the Monday of each such week, and a Sunday
/// course six days after it.
pub proof fn law_meeting_dates(first_text: Seq<char>, c: ClassView)
    ensures
        daylist_for(first_text, c) matches Ok(ds) ==> {
            &&& chrono_parse_date(first_text, ymd_format()) is Some
            &&& forall|i: int|
                0 <= i < ds.len() ==> #[trigger] is_meeting_date(
                    chrono_parse_date(first_text, ymd_format())->Some_0,
                    c,
                    ds[i],
                )
        },
{
    if let Some(first) = chrono_parse_date(first_text, ymd_format()) {
        lemma_class_dates_meet(first, c, c.week.len());
    }
}

/// How many of the weeks `a..a+n` have the parity of code `oe` (1 odd, 2 even).
pub open spec fn parity_count(oe: usize, a: nat, n: nat) -> nat
    decreases n,
{
    if n == 0 {
        0
    } else if week_included(oe, (a + n - 1) as nat) {
        parity_count(oe, a, (n - 1) as nat) + 1
    } else {
        parity_count(oe, a, (n - 1) as nat)
    }
}

/// The number spelt by `cs[from..to]`.
fn parse_number(cs: &Vec<char>, from: usize, to: usize) -> (r: Option<u32>)
    requires
        from <= to <= cs.len(),
    ensures
        match r {
            Some(v) => number_text(cs@.subrange(from as int, to as int)) == Some(v as nat),
            None => number_text(cs@.subrange(from as int, to as int)) is None,
        },
{
    match digits_within(cs, from, to, 4294967295) {
        Some(v) => Some(v as u32),
        None => None,
    }
}

/// Reads a week range `first-last`.
pub fn parse_week_range(s: &String) -> (r: Option<(u32, u32)>)
    ensures
        match r {
            Some((a, b)) => week_range(s@) == Some((a as nat, b as nat)),
            None => week_range(s@) is None,
        },
{
    let cs = chars_of(s.as_str());
    let mut p: usize = 0;
    while p < cs.len() && cs[p] != '-'
        invariant
            p <= cs.len(),
            cs@ == s@,
            forall|j: int| 0 <= j < p ==> #[trigger] cs@[j] != '-',
        decreases cs.len() - p,
    {
        p = p + 1;
    }
    if p == cs.len() {
        assert forall|q: int| !is_first_dash(s@, q) by {
            if 0 <= q < s@.len() {
                assert(cs@[q] != '-');
            }
        }
        return None;
    }
    assert(is_first_dash(s@, p as int));
    let ghost q = choose|q: int| is_first_dash(s@, q);
    assert(q == p as int) by {
        if q < p as int {
            assert(cs@[q] != '-');
        } else if q > p as int {
            assert(s@[p as int] != '-');
        }
    }
    assert(cs@.subrange(0, p as int) =~= s@.take(p as int));
    assert(cs@.subrange(p + 1, cs.len() as int) =~= s@.skip(p + 1));
    let a = parse_number(&cs, 0, p);
    let b = parse_number(&cs, p + 1, cs.len());
    match (a, b) {
        (Some(a), Some(b)) => Some((a, b)),
        _ => None,
    }
}

/// The date (`YYYYMMDD`) of day `day` of week `w`.
fn meeting_date_text(first: CivilDate, w: u64, day: usize) -> (r: Option<String>)
    requires
        date_valid(first),
        w <= u32::MAX,
    ensures
        r.deep_view() == meeting_date(first, w as nat, day),
{
    let off: i128 = 7 * (w as i128 - 1) + (day as i128 - 1);
    assert(off == day_offset(w as nat, day));
    if off < -100_000_000_000 || off > 100_000_000_000 {
        return None;
    }
    match add_days(first, off as i64) {
        Some(d) => Some(format_date(d, "%Y%m%d")),
        None => None,
    }
}

impl ClassInfo {
    /// Computes the meeting dates of this course for a semester whose first
    /// day (a Monday) is written `firstweekdate` as `YYYYMMDD`, and keeps them
    /// in `daylist`. On an error the record is left as it was.
    pub fn with_startdate(&mut self, firstweekdate: &str) -> (r: Result<(), IcalError>)
        ensures
            match daylist_for(firstweekdate@, old(self)@) {
                Ok(ds) => r is Ok && final(self)@ == (ClassView { daylist: ds, ..old(self)@ }),
                Err(e) => r == Err::<(), IcalError>(e) && final(self)@ == old(self)@,
            },
    {
        let first = match parse_date(firstweekdate, "%Y%m%d") {
            Some(d) => d,
            None => {
                return Err(IcalError::BadFirstWeekDate);
            },
        };
        let ghost c = self@;
        let mut days: Vec<String> = Vec::new();
        assert(days.deep_view() =~= Seq::<Seq<char>>::empty());
        let mut k: usize = 0;
        while k < self.week.len()
            invariant
                k <= self.week.len(),
                self@ == c,
                date_valid(first),
                chrono_parse_date(firstweekdate@, ymd_format()) == Some(first),
                class_dates(first, c, k as nat) == Ok::<Seq<Seq<char>>, IcalError>(
                    days.deep_view(),
                ),
            decreases self.week.len() - k,
        {
            assert(self.week[k as int]@ == c.week[k as int]);
            let (a, b) = match parse_week_range(&self.week[k]) {
                Some(r) => r,
                None => {
                    proof {
                        lemma_class_dates_err_persists(first, c, (k + 1) as nat, c.week.len());
                    }
                    return Err(IcalError::BadWeekRange);
                },
            };
            let ghost before = days.deep_view();
            let n: u64 = if b >= a {
                (b - a) as u64 + 1
            } else {
                0
            };
            assert(n == range_count(a as nat, b as nat));
            let mut j: u64 = 0;
            while j < n
                invariant
                    j <= n,
                    n <= u32::MAX as u64 + 1,
                    b >= a ==> n == (b - a) as u64 + 1,
                    b < a ==> n == 0,
                    date_valid(first),
                    match weeks_dates(first, c.oe, c.day, a as nat, j as nat) {
                        Ok(more) => days.deep_view() == before + more,
                        Err(_) => false,
                    },
                    k < c.week.len(),
                    self@ == c,
                    week_range(c.week[k as int]) == Some((a as nat, b as nat)),
                    class_dates(first, c, k as nat) == Ok::<Seq<Seq<char>>, IcalError>(before),
                    chrono_parse_date(firstweekdate@, ymd_format()) == Some(first),
                decreases n - j,
            {
                let w: u64 = a as u64 + j;
                assert(w <= u32::MAX);
                let oe = self.oe;
                if (oe == 1 && w % 2 == 1) || (oe == 2 && w % 2 == 0) || (oe != 1 && oe != 2) {
                    match meeting_date_text(first, w, self.day) {
                        Some(t) => {
                            let ghost more = weeks_dates(
                                first,
                                c.oe,
                                c.day,
                                a as nat,
                                j as nat,
                            )->Ok_0;
                            let ghost tv = t@;
                            let ghost dv0 = days.deep_view();
                            assert(dv0 == before + more);
                            days.push(t);
                            assert(days.deep_view() =~= dv0.push(tv));
                            assert(days.deep_view() =~= before + more.push(tv));
                        },
                        None => {
                            proof {
                                lemma_weeks_err_persists(
                                    first,
                                    c.oe,
                                    c.day,
                                    a as nat,
                                    (j + 1) as nat,
                                    n as nat,
                                );
                                lemma_class_dates_err_persists(
                                    first,
                                    c,
                                    (k + 1) as nat,
                                    c.week.len(),
                                );
                            }
                            return Err(IcalError::DateOutOfRange);
                        },
                    }
                }
                j = j + 1;
            }
            k = k + 1;
        }
        proof {
            assert(self.week@.len() == c.week.len());
        }
        self.daylist = days;
        Ok(())
    }
}


/// The first day of the semester, the bell schedule and the courses.
pub struct ICal {
    pub firstweekdate: String,
    pub schedule: Schedule,
    pub classlist: Vec<ClassInfo>,
}

pub struct ICalView {
    pub firstweekdate: Seq<char>,
    pub schedule: Seq<(Seq<char>, Seq<char>, Seq<char>)>,
    pub classlist: Seq<ClassView>,
}

impl View for ICal {
    type V = ICalView;

    open spec fn view(&self) -> ICalView {
        ICalView {
            firstweekdate: self.firstweekdate@,
            schedule: self.schedule@,
            classlist: self.classlist@.map_values(|c: ClassInfo| c@),
        }
    }
}

/// One calendar event to be: its summary, start and end, and for a class
/// meeting the reminder lead time in minutes.
pub struct EventPlan {
    pub summary: String,
    pub start: CivilDateTime,
    pub end: CivilDateTime,
    pub reminder: Option<i32>,
}

pub struct EventPlanView {
    pub summary: Seq<char>,
    pub start: CivilDateTime,
    pub end: CivilDateTime,
    pub reminder: Option<i32>,
}

impl View for EventPlan {
    type V = EventPlanView;

    open spec fn view(&self) -> EventPlanView {
        EventPlanView {
            summary: self.summary@,
            start: self.start,
            end: self.end,
            reminder: self.reminder,
        }
    }
}

pub open spec fn plans_view(ps: Seq<EventPlan>) -> Seq<EventPlanView> {
    ps.map_values(|p: EventPlan| p@)
}

pub open spec fn plan_lists_view(ls: Seq<Vec<EventPlan>>) -> Seq<Seq<EventPlanView>> {
    ls.map_values(|l: Vec<EventPlan>| plans_view(l@))
}

/// Both ends of every event are times the calendar can hold.
pub open spec fn plans_valid(ps: Seq<EventPlanView>) -> bool {
    forall|i: int| 0 <= i < ps.len() ==> datetime_valid(#[trigger] ps[i].start) && datetime_valid(
        ps[i].end,
    )
}

/// The start time of the first period and the end time of the last period
/// of course `c`.
pub open spec fn class_period_times(
    sched: Seq<(Seq<char>, Seq<char>, Seq<char>)>,
    c: ClassView,
) -> Result<(Seq<char>, Seq<char>), IcalError> {
    if c.classtime.len() == 0 {
        Err(IcalError::NoPeriod)
    } else {
        let f = c.classtime[0];
        let l = c.classtime.last();
        if f < 1 || f > sched.len() || l < 1 || l > sched.len() {
            Err(IcalError::PeriodOutOfRange)
        } else {
            Ok((sched[f - 1].1, sched[l - 1].2))
        }
    }
}

/// The summary of a class meeting: `name | classroom`.
pub open spec fn class_summary(c: ClassView) -> Seq<char> {
    c.name + " | "@ + c.classroom
}

/// One event per date of `days`, from time `st` to time `et` of that date.
pub open spec fn day_events(
    summary: Seq<char>,
    st: Seq<char>,
    et: Seq<char>,
    days: Seq<Seq<char>>,
    reminder: i32,
) -> Result<Seq<EventPlanView>, IcalError>
    decreases days.len(),
{
    if days.len() == 0 {
        Ok(seq![])
    } else {
        match day_events(summary, st, et, days.drop_last(), reminder) {
            Err(e) => Err(e),
            Ok(ps) => match chrono_parse_datetime(days.last() + st, ymdhm_format()) {
                None => Err(IcalError::BadClassTime),
                Some(s) => match chrono_parse_datetime(days.last() + et, ymdhm_format()) {
                    None => Err(IcalError::BadClassTime),
                    Some(e) => Ok(
                        ps.push(
                            EventPlanView { summary, start: s, end: e, reminder: Some(reminder) },
                        ),
                    ),
                },
            },
        }
    }
}

/// The meetings of course `c`, one per date of its `daylist`.
pub open spec fn class_events(
    c: ClassView,
    sched: Seq<(Seq<char>, Seq<char>, Seq<char>)>,
    reminder: i32,
) -> Result<Seq<EventPlanView>, IcalError> {
    match class_period_times(sched, c) {
        Err(e) => Err(e),
        Ok((st, et)) => day_events(class_summary(c), st, et, c.daylist, reminder),
    }
}

/// The first `k` courses, each with its meeting dates computed.
pub open spec fn dated_classes(first_text: Seq<char>, cs: Seq<ClassView>, k: nat) -> Result<
    Seq<ClassView>,
    IcalError,
>
    decreases k,
{
    if k == 0 {
        Ok(seq![])
    } else {
        match dated_classes(first_text, cs, (k - 1) as nat) {
            Err(e) => Err(e),
            Ok(ds) => match daylist_for(first_text, cs[k - 1]) {
                Err(e) => Err(e),
                Ok(dl) => Ok(ds.push(ClassView { daylist: dl, ..cs[k - 1] })),
            },
        }
    }
}

/// The meetings of the first `k` courses, course by course.
pub open spec fn class_event_lists(
    cs: Seq<ClassView>,
    sched: Seq<(Seq<char>, Seq<char>, Seq<char>)>,
    reminder: i32,
    k: nat,
) -> Result<Seq<Seq<EventPlanView>>, IcalError>
    decreases k,
{
    if k == 0 {
        Ok(seq![])
    } else {
        match class_event_lists(cs, sched, reminder, (k - 1) as nat) {
            Err(e) => Err(e),
            Ok(ls) => match class_events(cs[k - 1], sched, reminder) {
                Err(e) => Err(e),
                Ok(l) => Ok(ls.push(l)),
            },
        }
    }
}

/// The first day of week `k + 1` of a semester starting on `first`.
pub open spec fn week_start(first: CivilDate, k: nat) -> Option<CivilDate>
    decreases k,
{
    if k == 0 {
        Some(first)
    } else {
        match week_start(first, (k - 1) as nat) {
            None => None,
            Some(d) => chrono_add_days(d, 7),
        }
    }
}

/// The number of weeks in a semester.
pub open spec fn semester_weeks() -> nat {
    19
}

/// The summary of the event for week `n`: 学期第 n 周.
pub open spec fn week_summary(n: nat) -> Seq<char> {
    "\u{5b66}\u{671f}\u{7b2c} "@ + decimal(n) + " \u{5468}"@
}

/// One event per week of the semester, each from midnight at the start of
/// the week to midnight at the start of the next.
pub open spec fn week_events(first_text: Seq<char>) -> Result<Seq<EventPlanView>, IcalError> {
    match chrono_parse_date(first_text, ymd_format()) {
        None => Err(IcalError::BadFirstWeekDate),
        Some(first) => if week_start(first, semester_weeks()) is None {
            Err(IcalError::DateOutOfRange)
        } else {
            Ok(
                Seq::new(
                    semester_weeks(),
                    |i: int|
                        EventPlanView {
                            summary: week_summary((i + 1) as nat),
                            start: midnight(week_start(first, i as nat)->0),
                            end: midnight(week_start(first, (i + 1) as nat)->0),
                            reminder: None,
                        },
                ),
            )
        },
    }
}

/// What building the calendar plans: the courses with their meeting dates,
/// the meetings of each course, and the week events.
pub struct PlanView {
    pub classes: Seq<ClassView>,
    pub class_events: Seq<Seq<EventPlanView>>,
    pub week_events: Seq<EventPlanView>,
}

/// The plan for a timetable: first the meeting dates of every course, then
/// the meetings course by course, then the weeks; the first step that fails
/// decides the error.
pub open spec fn plan_spec(t: ICalView, reminder: i32) -> Result<PlanView, IcalError> {
    match dated_classes(t.firstweekdate, t.classlist, t.classlist.len()) {
        Err(e) => Err(e),
        Ok(cs) => match class_event_lists(cs, t.schedule, reminder, cs.len()) {
            Err(e) => Err(e),
            Ok(ls) => match week_events(t.firstweekdate) {
                Err(e) => Err(e),
                Ok(ws) => Ok(PlanView { classes: cs, class_events: ls, week_events: ws }),
            },
        },
    }
}

/// Each course is the one it was, but for its meeting dates.
pub open spec fn same_but_daylists(a: ICalView, b: ICalView) -> bool {
    &&& b.firstweekdate == a.firstweekdate
    &&& b.schedule == a.schedule
    &&& b.classlist.len() == a.classlist.len()
    &&& forall|i: int|
        0 <= i < a.classlist.len() ==> #[trigger] b.classlist[i] == (ClassView {
            daylist: b.classlist[i].daylist,
            ..a.classlist[i]
        })
}

proof fn lemma_dated_err_persists(first_text: Seq<char>, cs: Seq<ClassView>, k: nat, m: nat)
    requires
        dated_classes(first_text, cs, k) is Err,
        k <= m,
    ensures
        dated_classes(first_text, cs, m) == dated_classes(first_text, cs, k),
    decreases m - k,
{
    if k < m {
        lemma_dated_err_persists(first_text, cs, k, (m - 1) as nat);
    }
}

proof fn lemma_lists_err_persists(
    cs: Seq<ClassView>,
    sched: Seq<(Seq<char>, Seq<char>, Seq<char>)>,
    reminder: i32,
    k: nat,
    m: nat,
)
    requires
        class_event_lists(cs, sched, reminder, k) is Err,
        k <= m,
    ensures
        class_event_lists(cs, sched, reminder, m) == class_event_lists(cs, sched, reminder, k),
    decreases m - k,
{
    if k < m {
        lemma_lists_err_persists(cs, sched, reminder, k, (m - 1) as nat);
    }
}

proof fn lemma_days_err_persists(
    summary: Seq<char>,
    st: Seq<char>,
    et: Seq<char>,
    days: Seq<Seq<char>>,
    reminder: i32,
    k: int,
)
    requires
        0 <= k <= days.len(),
        day_events(summary, st, et, days.take(k), reminder) is Err,
    ensures
        day_events(summary, st, et, days, reminder) == day_events(
            summary,
            st,
            et,
            days.take(k),
            reminder,
        ),
    decreases days.len() - k,
{
    if k < days.len() {
        assert(days.take(k + 1).drop_last() =~= days.take(k));
        lemma_days_err_persists(summary, st, et, days, reminder, k + 1);
    } else {
        assert(days.take(k) =~= days);
    }
}

proof fn lemma_class_dates_ignore_daylist(first: CivilDate, a: ClassView, b: ClassView, k: nat)
    requires
        b == (ClassView { daylist: b.daylist, ..a }),
    ensures
        class_dates(first, b, k) == class_dates(first, a, k),
    decreases k,
{
    if k > 0 {
        lemma_class_dates_ignore_daylist(first, a, b, (k - 1) as nat);
    }
}

proof fn lemma_dated_ignore_daylists(first_text: Seq<char>, a: Seq<ClassView>, b: Seq<ClassView>, k: nat)
    requires
        k <= a.len(),
        a.len() == b.len(),
        forall|i: int| 0 <= i < a.len() ==> #[trigger] b[i] == (ClassView { daylist: b[i].daylist, ..a[i] }),
    ensures
        dated_classes(first_text, b, k) == dated_classes(first_text, a, k),
    decreases k,
{
    if k > 0 {
        lemma_dated_ignore_daylists(first_text, a, b, (k - 1) as nat);
        let x = a[k - 1];
        let y = b[k - 1];
        assert(y == (ClassView { daylist: y.daylist, ..x }));
        if let Some(first) = chrono_parse_date(first_text, ymd_format()) {
            lemma_class_dates_ignore_daylist(first, x, y, x.week.len());
        }
        assert(daylist_for(first_text, y) == daylist_for(first_text, x));
    }
}

/// Planning again a timetable whose courses differ only in their meeting
/// dates gives the same plan: the dates are computed afresh.
proof fn lemma_replan(a: ICalView, b: ICalView, reminder: i32)
    requires
        same_but_daylists(a, b),
    ensures
        plan_spec(b, reminder) == plan_spec(a, reminder),
{
    lemma_dated_ignore_daylists(a.firstweekdate, a.classlist, b.classlist, a.classlist.len());
}

proof fn lemma_same_but_daylists_trans(a: ICalView, b: ICalView, c: ICalView)
    requires
        same_but_daylists(a, b),
        same_but_daylists(b, c),
    ensures
        same_but_daylists(a, c),
{
    assert forall|i: int| 0 <= i < a.classlist.len() implies #[trigger] c.classlist[i] == (ClassView {
        daylist: c.classlist[i].daylist,
        ..a.classlist[i]
    }) by {
        assert(b.classlist[i] == (ClassView { daylist: b.classlist[i].daylist, ..a.classlist[i] }));
        assert(c.classlist[i] == (ClassView { daylist: c.classlist[i].daylist, ..b.classlist[i] }));
    }
}

proof fn lemma_week_start_none_persists(first: CivilDate, k: nat, m: nat)
    requires
        week_start(first, k) is None,
        k <= m,
    ensures
        week_start(first, m) is None,
    decreases m - k,
{
    if k < m {
        lemma_week_start_none_persists(first, k, (m - 1) as nat);
    }
}

/// The meetings of course `c`.
fn plan_class(c: &ClassInfo, schedule: &Schedule, reminder: i32) -> (r: Result<
    Vec<EventPlan>,
    IcalError,
>)
    ensures
        match (r, class_events(c@, schedule@, reminder)) {
            (Ok(v), Ok(ps)) => plans_view(v@) == ps && plans_valid(ps),
            (Err(e), Err(e2)) => e == e2,
            _ => false,
        },
{
    let n = c.classtime.len();
    if n == 0 {
        return Err(IcalError::NoPeriod);
    }
    let f = c.classtime[0];
    let l = c.classtime[n - 1];
    let slen = schedule.classtime.len();
    if f < 1 || f > slen || l < 1 || l > slen {
        return Err(IcalError::PeriodOutOfRange);
    }
    let st = &schedule.classtime[f - 1].start_time;
    let et = &schedule.classtime[l - 1].end_time;
    assert(st@ == schedule@[f - 1].1);
    assert(et@ == schedule@[l - 1].2);
    let mut summary = c.name.clone();
    push_char(&mut summary, ' ');
    push_char(&mut summary, '|');
    push_char(&mut summary, ' ');
    summary.append(c.classroom.as_str());
    proof {
        reveal_strlit(" | ");
    }
    assert(summary@ =~= class_summary(c@));
    let ghost days = c@.daylist;
    let mut v: Vec<EventPlan> = Vec::new();
    let mut i: usize = 0;
    assert(days.take(0) =~= Seq::<Seq<char>>::empty());
    assert(plans_view(v@) =~= Seq::<EventPlanView>::empty());
    while i < c.daylist.len()
        invariant
            i <= c.daylist.len(),
            days == c@.daylist,
            summary@ == class_summary(c@),
            class_period_times(schedule@, c@) == Ok::<(Seq<char>, Seq<char>), IcalError>(
                (st@, et@),
            ),
            day_events(summary@, st@, et@, days.take(i as int), reminder) == Ok::<
                Seq<EventPlanView>,
                IcalError,
            >(plans_view(v@)),
            plans_valid(plans_view(v@)),
        decreases c.daylist.len() - i,
    {
        assert(days.take(i + 1).drop_last() =~= days.take(i as int));
        assert(days.take(i + 1).last() == c.daylist[i as int]@);
        let mut s_text = c.daylist[i].clone();
        s_text.append(st.as_str());
        let mut e_text = c.daylist[i].clone();
        e_text.append(et.as_str());
        let start = match parse_datetime(s_text.as_str(), "%Y%m%d%H%M") {
            Some(t) => t,
            None => {
                proof {
                    lemma_days_err_persists(summary@, st@, et@, days, reminder, i + 1);
                    assert(days.take(days.len() as int) =~= days);
                }
                return Err(IcalError::BadClassTime);
            },
        };
        let end = match parse_datetime(e_text.as_str(), "%Y%m%d%H%M") {
            Some(t) => t,
            None => {
                proof {
                    lemma_days_err_persists(summary@, st@, et@, days, reminder, i + 1);
                    assert(days.take(days.len() as int) =~= days);
                }
                return Err(IcalError::BadClassTime);
            },
        };
        let ghost before = plans_view(v@);
        v.push(EventPlan { summary: summary.clone(), start, end, reminder: Some(reminder) });
        assert(plans_view(v@) =~= before.push(
            EventPlanView { summary: summary@, start, end, reminder: Some(reminder) },
        ));
        i = i + 1;
    }
    assert(days.take(c.daylist.len() as int) =~= days);
    Ok(v)
}

/// The week events of a semester starting on the day written `firstweekdate`.
fn plan_weeks(firstweekdate: &String) -> (r: Result<Vec<EventPlan>, IcalError>)
    ensures
        match (r, week_events(firstweekdate@)) {
            (Ok(v), Ok(ps)) => plans_view(v@) == ps && plans_valid(ps),
            (Err(e), Err(e2)) => e == e2,
            _ => false,
        },
{
    let first = match parse_date(firstweekdate.as_str(), "%Y%m%d") {
        Some(d) => d,
        None => {
            return Err(IcalError::BadFirstWeekDate);
        },
    };
    let mut cur = first;
    let mut v: Vec<EventPlan> = Vec::new();
    let mut wn: usize = 1;
    while wn <= 19
        invariant
            1 <= wn <= 20,
            chrono_parse_date(firstweekdate@, ymd_format()) == Some(first),
            week_start(first, (wn - 1) as nat) == Some(cur),
            date_valid(cur),
            v.len() == wn - 1,
            forall|i: int|
                0 <= i < v.len() ==> (#[trigger] v@[i])@ == (EventPlanView {
                    summary: week_summary((i + 1) as nat),
                    start: midnight(week_start(first, i as nat)->0),
                    end: midnight(week_start(first, (i + 1) as nat)->0),
                    reminder: None,
                }),
            plans_valid(plans_view(v@)),
        decreases 20 - wn,
    {
        let next = match add_days(cur, 7) {
            Some(d) => d,
            None => {
                proof {
                    lemma_week_start_none_persists(first, wn as nat, semester_weeks());
                }
                return Err(IcalError::DateOutOfRange);
            },
        };
        let mut summary = String::from_str("\u{5b66}\u{671f}\u{7b2c} ");
        push_decimal(&mut summary, wn);
        summary.append(" \u{5468}");
        let ghost before = plans_view(v@);
        v.push(EventPlan { summary, start: midnight_of(cur), end: midnight_of(next), reminder: None });
        assert(plans_view(v@) =~= before.push(v@[v.len() - 1]@));
        cur = next;
        wn = wn + 1;
    }
    let ghost ws = week_events(firstweekdate@)->Ok_0;
    assert(plans_view(v@) =~= ws);
    Ok(v)
}

proof fn lemma_day_events_shape(
    summary: Seq<char>,
    st: Seq<char>,
    et: Seq<char>,
    days: Seq<Seq<char>>,
    reminder: i32,
)
    requires
        day_events(summary, st, et, days, reminder) is Ok,
    ensures
        day_events(summary, st, et, days, reminder)->Ok_0.len() == days.len(),
        forall|i: int|
            0 <= i < days.len() ==> (#[trigger] day_events(summary, st, et, days, reminder)->Ok_0[i]).summary
                == summary && day_events(summary, st, et, days, reminder)->Ok_0[i].reminder == Some(
                reminder,
            ),
    decreases days.len(),
{
    if days.len() > 0 {
        lemma_day_events_shape(summary, st, et, days.drop_last(), reminder);
    }
}

/// A course meets once per meeting date: its events are as many as its
/// dates, each with the course's summary and the reminder.
pub proof fn law_one_event_per_meeting(
    c: ClassView,
    sched: Seq<(Seq<char>, Seq<char>, Seq<char>)>,
    reminder: i32,
)
    ensures
        class_events(c, sched, reminder) matches Ok(ps) ==> {
            &&& ps.len() == c.daylist.len()
            &&& forall|i: int|
                0 <= i < ps.len() ==> (#[trigger] ps[i]).summary == class_summary(c)
                    && ps[i].reminder == Some(reminder)
        },
{
    if class_events(c, sched, reminder) is Ok {
        let (st, et) = class_period_times(sched, c)->Ok_0;
        lemma_day_events_shape(class_summary(c), st, et, c.daylist, reminder);
    }
}

/// A course whose periods are all rows of the bell schedule (as every
/// course read from a class table with that many periods is) has a start
/// and an end time.
pub proof fn law_periods_in_schedule(c: ClassView, sched: Seq<(Seq<char>, Seq<char>, Seq<char>)>)
    requires
        c.classtime.len() > 0,
        forall|i: int| 0 <= i < c.classtime.len() ==> 1 <= #[trigger] c.classtime[i] <= sched.len(),
    ensures
        class_period_times(sched, c) == Ok::<(Seq<char>, Seq<char>), IcalError>(
            (sched[c.classtime[0] - 1].1, sched[c.classtime.last() - 1].2),
        ),
{
    assert(1 <= c.classtime[c.classtime.len() - 1] <= sched.len());
}

/// The semester has nineteen week events, numbered from 1, each ending
/// where the next begins.
pub proof fn law_weeks_contiguous(first_text: Seq<char>)
    ensures
        week_events(first_text) matches Ok(ws) ==> {
            &&& ws.len() == semester_weeks()
            &&& forall|i: int|
                0 <= i < ws.len() ==> (#[trigger] ws[i]).summary == week_summary((i + 1) as nat)
            &&& forall|i: int| 0 <= i < ws.len() - 1 ==> (#[trigger] ws[i]).end == ws[i + 1].start
        },
{
}

proof fn lemma_lists_counts(
    cs: Seq<ClassView>,
    sched: Seq<(Seq<char>, Seq<char>, Seq<char>)>,
    reminder: i32,
    k: nat,
)
    requires
        k <= cs.len(),
        class_event_lists(cs, sched, reminder, k) is Ok,
    ensures
        class_event_lists(cs, sched, reminder, k)->Ok_0.len() == k,
        forall|i: int|
            0 <= i < k ==> (#[trigger] class_event_lists(cs, sched, reminder, k)->Ok_0[i]).len()
                == cs[i].daylist.len(),
    decreases k,
{
    if k > 0 {
        lemma_lists_counts(cs, sched, reminder, (k - 1) as nat);
        law_one_event_per_meeting(cs[k - 1], sched, reminder);
    }
}

/// The calendar holds one event per meeting date of each course and
/// nineteen week events.
pub proof fn law_plan_counts(t: ICalView, reminder: i32)
    ensures
        plan_spec(t, reminder) matches Ok(p) ==> {
            &&& p.class_events.len() == p.classes.len()
            &&& forall|i: int|
                0 <= i < p.classes.len() ==> (#[trigger] p.class_events[i]).len()
                    == p.classes[i].daylist.len()
            &&& p.week_events.len() == semester_weeks()
        },
{
    if let Ok(p) = plan_spec(t, reminder) {
        lemma_dated_len(t.firstweekdate, t.classlist, t.classlist.len());
        lemma_lists_counts(p.classes, t.schedule, reminder, p.classes.len());
    }
}

proof fn lemma_dated_len(first_text: Seq<char>, cs: Seq<ClassView>, k: nat)
    requires
        dated_classes(first_text, cs, k) is Ok,
    ensures
        dated_classes(first_text, cs, k)->Ok_0.len() == k,
    decreases k,
{
    if k > 0 {
        lemma_dated_len(first_text, cs, (k - 1) as nat);
    }
}

/// Properties set on the calendar after the default ones.
pub open spec fn calendar_extra_properties() -> Seq<(Seq<char>, Seq<char>)> {
    seq![
        ("METHOD"@, "PUBLISH"@),
        ("X-WR-CALNAME"@, "\u{8bfe}\u{7a0b}\u{8868}"@),
        ("X-WR-TIMEZONE"@, "Asia/Shanghai"@),
    ]
}

/// Properties set on every event.
pub open spec fn event_extra_properties() -> Seq<(Seq<char>, Seq<char>)> {
    seq![("CLASS"@, "PUBLIC"@), ("TRANSP"@, "OPAQUE"@)]
}

/// The calendar properties, as names and values.
pub fn calendar_extra_props() -> (v: Vec<(String, String)>)
    ensures
        v@.map_values(|e: (String, String)| (e.0@, e.1@)) == calendar_extra_properties(),
{
    let mut v: Vec<(String, String)> = Vec::new();
    v.push((String::from_str("METHOD"), String::from_str("PUBLISH")));
    v.push((String::from_str("X-WR-CALNAME"), String::from_str("\u{8bfe}\u{7a0b}\u{8868}")));
    v.push((String::from_str("X-WR-TIMEZONE"), String::from_str("Asia/Shanghai")));
    assert(v@.map_values(|e: (String, String)| (e.0@, e.1@)) =~= calendar_extra_properties());
    v
}

/// The event properties, as names and values.
pub fn event_extra_props() -> (v: Vec<(String, String)>)
    ensures
        v@.map_values(|e: (String, String)| (e.0@, e.1@)) == event_extra_properties(),
{
    let mut v: Vec<(String, String)> = Vec::new();
    v.push((String::from_str("CLASS"), String::from_str("PUBLIC")));
    v.push((String::from_str("TRANSP"), String::from_str("OPAQUE")));
    assert(v@.map_values(|e: (String, String)| (e.0@, e.1@)) =~= event_extra_properties());
    v
}

/// `m` with the properties `ps` set in order, a later one replacing an earlier one.
pub open spec fn with_properties(m: PropertyMap, ps: Seq<(Seq<char>, Seq<char>)>) -> PropertyMap
    decreases ps.len(),
{
    if ps.len() == 0 {
        m
    } else {
        with_properties(m, ps.drop_last()).insert(ps.last().0, ps.last().1)
    }
}

/// The description of a class reminder.
pub open spec fn reminder_description() -> Seq<char> {
    "This is an event reminder"@
}

/// The UID of an event: a UUID followed by `@gmail.com`.
pub open spec fn uid_text(u: Seq<char>) -> Seq<char> {
    u + "@gmail.com"@
}

/// A class meeting as an event: the event properties, then summary, time
/// stamp, UID, start and end; one display alarm `reminder` minutes before.
pub open spec fn class_event_content(
    p: EventPlanView,
    reminder: i32,
    stamp: CivilDateTime,
    uid: Seq<char>,
) -> (PropertyMap, AlarmList) {
    (
        with_properties(Map::empty(), event_extra_properties()).insert("SUMMARY"@, p.summary).insert(
            "DTSTAMP"@,
            utc_stamp_text(stamp),
        ).insert("UID"@, uid).insert("DTSTART"@, datetime_text(p.start)).insert(
            "DTEND"@,
            datetime_text(p.end),
        ),
        seq![(reminder_description(), reminder)],
    )
}

/// A week as an event: UID, summary, time stamp, start and end, then the
/// event properties; no alarm.
pub open spec fn week_event_content(p: EventPlanView, stamp: CivilDateTime, uid: Seq<char>) -> (
    PropertyMap,
    AlarmList,
) {
    (
        with_properties(
            Map::empty().insert("UID"@, uid).insert("SUMMARY"@, p.summary).insert(
                "DTSTAMP"@,
                utc_stamp_text(stamp),
            ).insert("DTSTART"@, datetime_text(p.start)).insert(
                "DTEND"@,
                datetime_text(p.end),
            ),
            event_extra_properties(),
        ),
        seq![],
    )
}

/// `ev` is the event of class meeting `p`, for some UTC time stamp and some
/// version-4 UUID.
pub open spec fn is_class_event(ev: (PropertyMap, AlarmList), p: EventPlanView, reminder: i32) -> bool {
    exists|stamp: CivilDateTime, u: Seq<char>|
        datetime_valid(stamp) && uuid_shaped(u, '4') && ev == class_event_content(
            p,
            reminder,
            stamp,
            uid_text(u),
        )
}

/// `ev` is the event of week `p`, for some UTC time stamp and some version-4 UUID.
pub open spec fn is_week_event(ev: (PropertyMap, AlarmList), p: EventPlanView) -> bool {
    exists|stamp: CivilDateTime, u: Seq<char>|
        datetime_valid(stamp) && uuid_shaped(u, '4') && ev == week_event_content(
            p,
            stamp,
            uid_text(u),
        )
}

/// The calendar of plan `p`: the default and calendar properties, then one
/// event per class meeting, course by course, then one per week. The events
/// of one course share a time stamp, and so do the week events.
pub open spec fn calendar_of_plan(cal: icalendar::Calendar, p: PlanView, reminder: i32) -> bool {
    let flat = p.class_events.flatten_alt();
    let evs = calendar_events(cal);
    &&& calendar_properties(cal) == default_calendar_properties() + calendar_extra_properties()
    &&& evs.len() == flat.len() + p.week_events.len()
    &&& forall|i: int| 0 <= i < flat.len() ==> is_class_event(#[trigger] evs[i], flat[i], reminder)
    &&& forall|j: int|
        0 <= j < p.week_events.len() ==> is_week_event(
            #[trigger] evs[flat.len() + j],
            p.week_events[j],
        )
    &&& forall|k: int, i: int|
        0 <= k < p.class_events.len() && 0 <= i < p.class_events[k].len() ==> #[trigger] stamp_of(
            evs[course_offset(p.class_events, k) + i],
        ) == stamp_of(evs[course_offset(p.class_events, k)])
    &&& forall|j: int|
        0 <= j < p.week_events.len() ==> #[trigger] stamp_of(evs[flat.len() + j]) == stamp_of(
            evs[flat.len() as int],
        )
}

/// The time stamp written on event `ev`.
pub open spec fn stamp_of(ev: (PropertyMap, AlarmList)) -> Seq<char> {
    ev.0["DTSTAMP"@]
}

/// Where the events of course `k` start among the class events.
pub open spec fn course_offset(ls: Seq<Seq<EventPlanView>>, k: int) -> int {
    ls.take(k).flatten_alt().len() as int
}

proof fn lemma_course_offsets(ls: Seq<Seq<EventPlanView>>, k2: int, k: int)
    requires
        0 <= k2 < k <= ls.len(),
    ensures
        course_offset(ls, k2) + ls[k2].len() <= course_offset(ls, k),
    decreases k,
{
    assert(ls.take(k).drop_last() =~= ls.take(k - 1));
    assert(ls.take(k).flatten_alt() == ls.take(k - 1).flatten_alt() + ls[k - 1]);
    if k2 < k - 1 {
        lemma_course_offsets(ls, k2, k - 1);
    }
}

/// The property names set on an event differ from `DTSTAMP`.
proof fn lemma_stamp_key_distinct()
    ensures
        "SUMMARY"@ != "DTSTAMP"@,
        "UID"@ != "DTSTAMP"@,
        "DTSTART"@ != "DTSTAMP"@,
        "DTEND"@ != "DTSTAMP"@,
        "CLASS"@ != "DTSTAMP"@,
        "TRANSP"@ != "DTSTAMP"@,
{
    reveal_strlit("SUMMARY");
    reveal_strlit("UID");
    reveal_strlit("DTSTART");
    reveal_strlit("DTEND");
    reveal_strlit("CLASS");
    reveal_strlit("TRANSP");
    reveal_strlit("DTSTAMP");
    assert("DTSTART"@[5] != "DTSTAMP"@[5]);
    assert("SUMMARY"@[0] != "DTSTAMP"@[0]);
    assert("DTSTAMP"@.len() == 7);
    assert("UID"@.len() == 3 && "DTEND"@.len() == 5 && "CLASS"@.len() == 5 && "TRANSP"@.len() == 6);
}

/// The property names that the calendar sets on events are distinct.
proof fn lemma_event_keys_distinct()
    ensures
        "SUMMARY"@ != "DTSTAMP"@,
        "SUMMARY"@ != "UID"@,
        "SUMMARY"@ != "DTSTART"@,
        "SUMMARY"@ != "DTEND"@,
        "DTSTART"@ != "DTEND"@,
        "CLASS"@ != "TRANSP"@,
        "CLASS"@ != "SUMMARY"@,
        "CLASS"@ != "DTSTAMP"@,
        "CLASS"@ != "UID"@,
        "CLASS"@ != "DTSTART"@,
        "CLASS"@ != "DTEND"@,
        "TRANSP"@ != "SUMMARY"@,
        "TRANSP"@ != "DTSTAMP"@,
        "TRANSP"@ != "UID"@,
        "TRANSP"@ != "DTSTART"@,
        "TRANSP"@ != "DTEND"@,
        "DTSTAMP"@ != "DTSTART"@,
        "DTSTAMP"@ != "DTEND"@,
        "UID"@ != "DTSTART"@,
        "UID"@ != "DTEND"@,
{
    reveal_strlit("SUMMARY");
    reveal_strlit("UID");
    reveal_strlit("DTSTART");
    reveal_strlit("DTEND");
    reveal_strlit("CLASS");
    reveal_strlit("TRANSP");
    reveal_strlit("DTSTAMP");
    assert("SUMMARY"@.len() == 7 && "DTSTAMP"@.len() == 7 && "DTSTART"@.len() == 7);
    assert("UID"@.len() == 3 && "DTEND"@.len() == 5 && "CLASS"@.len() == 5 && "TRANSP"@.len() == 6);
    assert("SUMMARY"@[0] != "DTSTAMP"@[0] && "SUMMARY"@[0] != "DTSTART"@[0]);
    assert("DTSTART"@[5] != "DTSTAMP"@[5]);
    assert("CLASS"@[0] != "DTEND"@[0]);
}

/// The event properties as a map: `CLASS=PUBLIC`, `TRANSP=OPAQUE` over `m`.
proof fn lemma_extra_properties(m: PropertyMap)
    ensures
        with_properties(m, event_extra_properties()) == m.insert("CLASS"@, "PUBLIC"@).insert(
            "TRANSP"@,
            "OPAQUE"@,
        ),
{
    let ex = event_extra_properties();
    assert(ex.drop_last().drop_last() =~= Seq::<(Seq<char>, Seq<char>)>::empty());
    reveal_with_fuel(with_properties, 3);
}

/// In a calendar built with reminder `r`, every class event has exactly one
/// alarm, the display alarm `r` minutes before its start; its summary, start
/// and end are those of its meeting, and it is public and opaque. Every week
/// event has no alarm, and the summary, start and end of its week.
pub proof fn law_calendar_event_fields(cal: icalendar::Calendar, p: PlanView, reminder: i32)
    requires
        calendar_of_plan(cal, p, reminder),
    ensures
        forall|i: int|
            0 <= i < p.class_events.flatten_alt().len() ==> {
                &&& (#[trigger] calendar_events(cal)[i]).1 == seq![
                    ("This is an event reminder"@, reminder),
                ]
                &&& calendar_events(cal)[i].0["SUMMARY"@] == p.class_events.flatten_alt()[i].summary
                &&& calendar_events(cal)[i].0["DTSTART"@] == datetime_text(
                    p.class_events.flatten_alt()[i].start,
                )
                &&& calendar_events(cal)[i].0["DTEND"@] == datetime_text(
                    p.class_events.flatten_alt()[i].end,
                )
                &&& calendar_events(cal)[i].0["CLASS"@] == "PUBLIC"@
                &&& calendar_events(cal)[i].0["TRANSP"@] == "OPAQUE"@
            },
        forall|j: int|
            0 <= j < p.week_events.len() ==> {
                &&& (#[trigger] calendar_events(cal)[p.class_events.flatten_alt().len() + j]).1
                    == Seq::<(Seq<char>, i32)>::empty()
                &&& calendar_events(cal)[p.class_events.flatten_alt().len() + j].0["SUMMARY"@]
                    == p.week_events[j].summary
                &&& calendar_events(cal)[p.class_events.flatten_alt().len() + j].0["DTSTART"@]
                    == datetime_text(p.week_events[j].start)
                &&& calendar_events(cal)[p.class_events.flatten_alt().len() + j].0["DTEND"@]
                    == datetime_text(p.week_events[j].end)
            },
{
    let flat = p.class_events.flatten_alt();
    let evs = calendar_events(cal);
    lemma_event_keys_distinct();
    reveal_strlit("This is an event reminder");
    assert forall|i: int| 0 <= i < flat.len() implies {
        &&& (#[trigger] evs[i]).1 == seq![("This is an event reminder"@, reminder)]
        &&& evs[i].0["SUMMARY"@] == flat[i].summary
        &&& evs[i].0["DTSTART"@] == datetime_text(flat[i].start)
        &&& evs[i].0["DTEND"@] == datetime_text(flat[i].end)
        &&& evs[i].0["CLASS"@] == "PUBLIC"@
        &&& evs[i].0["TRANSP"@] == "OPAQUE"@
    } by {
        assert(is_class_event(evs[i], flat[i], reminder));
        let (stamp, u) = choose|stamp: CivilDateTime, u: Seq<char>|
            datetime_valid(stamp) && uuid_shaped(u, '4') && evs[i] == class_event_content(
                flat[i],
                reminder,
                stamp,
                uid_text(u),
            );
        lemma_extra_properties(Map::empty());
    }
    assert forall|j: int| 0 <= j < p.week_events.len() implies {
        &&& (#[trigger] evs[flat.len() + j]).1 == Seq::<(Seq<char>, i32)>::empty()
        &&& evs[flat.len() + j].0["SUMMARY"@] == p.week_events[j].summary
        &&& evs[flat.len() + j].0["DTSTART"@] == datetime_text(p.week_events[j].start)
        &&& evs[flat.len() + j].0["DTEND"@] == datetime_text(p.week_events[j].end)
    } by {
        assert(is_week_event(evs[flat.len() + j], p.week_events[j]));
        let (stamp, u) = choose|stamp: CivilDateTime, u: Seq<char>|
            datetime_valid(stamp) && uuid_shaped(u, '4') && evs[flat.len() + j] == week_event_content(
                p.week_events[j],
                stamp,
                uid_text(u),
            );
        let m = Map::<Seq<char>, Seq<char>>::empty().insert("UID"@, uid_text(u)).insert(
            "SUMMARY"@,
            p.week_events[j].summary,
        ).insert("DTSTAMP"@, utc_stamp_text(stamp)).insert(
            "DTSTART"@,
            datetime_text(p.week_events[j].start),
        ).insert("DTEND"@, datetime_text(p.week_events[j].end));
        lemma_extra_properties(m);
    }
}

/// Sets the properties `props` on `e`, in order.
fn add_event_props(e: &mut icalendar::Event, props: &Vec<(String, String)>)
    ensures
        event_properties(*final(e)) == with_properties(
            event_properties(*old(e)),
            props@.map_values(|p: (String, String)| (p.0@, p.1@)),
        ),
        event_alarms(*final(e)) == event_alarms(*old(e)),
{
    let ghost pv = props@.map_values(|p: (String, String)| (p.0@, p.1@));
    let ghost m0 = event_properties(*e);
    let mut i: usize = 0;
    assert(pv.take(0) =~= Seq::<(Seq<char>, Seq<char>)>::empty());
    while i < props.len()
        invariant
            i <= props.len(),
            pv == props@.map_values(|p: (String, String)| (p.0@, p.1@)),
            m0 == event_properties(*old(e)),
            event_properties(*e) == with_properties(m0, pv.take(i as int)),
            event_alarms(*e) == event_alarms(*old(e)),
        decreases props.len() - i,
    {
        assert(pv.take(i + 1).drop_last() =~= pv.take(i as int));
        event_add_property(e, props[i].0.as_str(), props[i].1.as_str());
        i = i + 1;
    }
    assert(pv.take(props.len() as int) =~= pv);
}

fn new_uid() -> (u: String)
    ensures
        exists|r: Seq<char>| uuid_shaped(r, '4') && u@ == uid_text(r),
{
    let mut u = random_uuid_text();
    let ghost r = u@;
    u.append("@gmail.com");
    assert(u@ == uid_text(r));
    u
}

/// The event of class meeting `p`, stamped `stamp`.
fn class_event(p: &EventPlan, reminder: i32, stamp: CivilDateTime, extra: &Vec<(String, String)>) -> (e: icalendar::Event)
    requires
        datetime_valid(stamp),
        datetime_valid(p.start),
        datetime_valid(p.end),
        extra@.map_values(|q: (String, String)| (q.0@, q.1@)) == event_extra_properties(),
    ensures
        is_class_event((event_properties(e), event_alarms(e)), p@, reminder),
        stamp_of((event_properties(e), event_alarms(e))) == utc_stamp_text(stamp),
{
    let uid = new_uid();
    let ghost r = choose|r: Seq<char>| uuid_shaped(r, '4') && uid@ == uid_text(r);
    let mut e = new_event();
    add_event_props(&mut e, extra);
    event_summary(&mut e, p.summary.as_str());
    event_timestamp(&mut e, stamp);
    event_uid(&mut e, uid.as_str());
    event_starts(&mut e, p.start);
    event_ends(&mut e, p.end);
    event_display_alarm(&mut e, "This is an event reminder", reminder);
    assert(event_alarms(e) =~= seq![(reminder_description(), reminder)]);
    assert((event_properties(e), event_alarms(e)) == class_event_content(p@, reminder, stamp, uid_text(r)));
    proof {
        lemma_stamp_key_distinct();
    }
    e
}

/// The event of week `p`, stamped `stamp`.
fn week_event(p: &EventPlan, stamp: CivilDateTime, extra: &Vec<(String, String)>) -> (e: icalendar::Event)
    requires
        datetime_valid(stamp),
        datetime_valid(p.start),
        datetime_valid(p.end),
        extra@.map_values(|q: (String, String)| (q.0@, q.1@)) == event_extra_properties(),
    ensures
        is_week_event((event_properties(e), event_alarms(e)), p@),
        stamp_of((event_properties(e), event_alarms(e))) == utc_stamp_text(stamp),
{
    let uid = new_uid();
    let ghost r = choose|r: Seq<char>| uuid_shaped(r, '4') && uid@ == uid_text(r);
    let mut e = new_event();
    event_uid(&mut e, uid.as_str());
    event_summary(&mut e, p.summary.as_str());
    event_timestamp(&mut e, stamp);
    event_starts(&mut e, p.start);
    event_ends(&mut e, p.end);
    add_event_props(&mut e, extra);
    assert(event_alarms(e) =~= Seq::<(Seq<char>, i32)>::empty());
    assert((event_properties(e), event_alarms(e)) == week_event_content(p@, stamp, uid_text(r)));
    proof {
        lemma_stamp_key_distinct();
        let m = Map::<Seq<char>, Seq<char>>::empty().insert("UID"@, uid_text(r)).insert(
            "SUMMARY"@,
            p@.summary,
        ).insert("DTSTAMP"@, utc_stamp_text(stamp)).insert("DTSTART"@, datetime_text(p@.start)).insert(
            "DTEND"@,
            datetime_text(p@.end),
        );
        let ex = event_extra_properties();
        assert(ex.drop_last().drop_last() =~= Seq::<(Seq<char>, Seq<char>)>::empty());
        reveal_with_fuel(with_properties, 3);
        assert(with_properties(m, ex) == m.insert("CLASS"@, "PUBLIC"@).insert("TRANSP"@, "OPAQUE"@));
    }
    e
}

impl ICal {
    /// The timetable as a calendar: the calendar properties; for each course,
    /// one event per meeting with a display alarm `reminder` minutes before
    /// it; then one event per week of the semester. The courses keep the
    /// meeting dates computed on the way.
    ///
    /// The timetable must make a plan (see `plan_spec`), as the calendar
    /// cannot be built otherwise; `checked_to_ical` says why one does not.
    pub fn to_ical(&mut self, reminder: i32) -> (cal: icalendar::Calendar)
        requires
            plan_spec(old(self)@, reminder) is Ok,
        ensures
            same_but_daylists(old(self)@, final(self)@),
            final(self)@.classlist == plan_spec(old(self)@, reminder)->Ok_0.classes,
            calendar_of_plan(cal, plan_spec(old(self)@, reminder)->Ok_0, reminder),
            forall|i: int|
                0 <= i < plan_spec(old(self)@, reminder)->Ok_0.class_events.flatten_alt().len()
                    ==> (#[trigger] calendar_events(cal)[i]).1 == seq![
                    ("This is an event reminder"@, reminder),
                ],
    {
        let ghost p = plan_spec(self@, reminder)->Ok_0;
        let (lists, weeks) = match self.plan_events(reminder) {
            Ok(x) => x,
            Err(_) => vstd::pervasive::unreached(),
        };
        let ghost lv = plan_lists_view(lists@);
        let mut cal = new_calendar();
        let cprops = calendar_extra_props();
        let ghost cpv = cprops@.map_values(|q: (String, String)| (q.0@, q.1@));
        let mut i: usize = 0;
        assert(cpv.take(0) =~= Seq::<(Seq<char>, Seq<char>)>::empty());
        while i < cprops.len()
            invariant
                i <= cprops.len(),
                cpv == cprops@.map_values(|q: (String, String)| (q.0@, q.1@)),
                calendar_properties(cal) == default_calendar_properties() + cpv.take(i as int),
                calendar_events(cal) == Seq::<(PropertyMap, AlarmList)>::empty(),
            decreases cprops.len() - i,
        {
            let ghost before = calendar_properties(cal);
            calendar_add_property(&mut cal, cprops[i].0.as_str(), cprops[i].1.as_str());
            assert(calendar_properties(cal) =~= default_calendar_properties() + cpv.take(i + 1));
            i = i + 1;
        }
        assert(cpv.take(cprops.len() as int) =~= cpv);
        let extra = event_extra_props();
        let mut k: usize = 0;
        assert(lv.take(0).flatten_alt() =~= Seq::<EventPlanView>::empty());
        while k < lists.len()
            invariant
                k <= lists.len(),
                lv == plan_lists_view(lists@),
                forall|q: int| 0 <= q < lv.len() ==> plans_valid(#[trigger] lv[q]),
                extra@.map_values(|q: (String, String)| (q.0@, q.1@)) == event_extra_properties(),
                calendar_properties(cal) == default_calendar_properties() + calendar_extra_properties(),
                calendar_events(cal).len() == lv.take(k as int).flatten_alt().len(),
                forall|q: int|
                    0 <= q < lv.take(k as int).flatten_alt().len() ==> is_class_event(
                        #[trigger] calendar_events(cal)[q],
                        lv.take(k as int).flatten_alt()[q],
                        reminder,
                    ),
                forall|k2: int, i: int|
                    0 <= k2 < k && 0 <= i < lv[k2].len() ==> #[trigger] stamp_of(
                        calendar_events(cal)[course_offset(lv, k2) + i],
                    ) == stamp_of(calendar_events(cal)[course_offset(lv, k2)]),
            decreases lists.len() - k,
        {
            let ghost flat = lv.take(k as int).flatten_alt();
            let ghost here = lv[k as int];
            assert(lv.take(k + 1).drop_last() =~= lv.take(k as int));
            assert(lv.take(k + 1).flatten_alt() == flat + here);
            let stamp = utc_now();
            let list = &lists[k];
            assert(plans_view(list@) == here);
            assert(plans_valid(here));
            let mut j: usize = 0;
            while j < list.len()
                invariant
                    j <= list.len(),
                    datetime_valid(stamp),
                    plans_view(list@) == here,
                    plans_valid(here),
                    extra@.map_values(|q: (String, String)| (q.0@, q.1@)) == event_extra_properties(),
                    calendar_properties(cal) == default_calendar_properties() + calendar_extra_properties(),
                    calendar_events(cal).len() == flat.len() + j,
                    forall|q: int|
                        0 <= q < flat.len() ==> is_class_event(
                            #[trigger] calendar_events(cal)[q],
                            flat[q],
                            reminder,
                        ),
                    forall|q: int|
                        0 <= q < j ==> is_class_event(
                            #[trigger] calendar_events(cal)[flat.len() + q],
                            here[q],
                            reminder,
                        ),
                    forall|q: int|
                        0 <= q < j ==> #[trigger] stamp_of(calendar_events(cal)[flat.len() + q])
                            == utc_stamp_text(stamp),
                    k < lv.len(),
                    flat == lv.take(k as int).flatten_alt(),
                    forall|k2: int, i: int|
                        0 <= k2 < k && 0 <= i < lv[k2].len() ==> #[trigger] stamp_of(
                            calendar_events(cal)[course_offset(lv, k2) + i],
                        ) == stamp_of(calendar_events(cal)[course_offset(lv, k2)]),
                decreases list.len() - j,
            {
                assert(list@[j as int]@ == here[j as int]);
                assert(datetime_valid(here[j as int].start) && datetime_valid(here[j as int].end));
                let ev = class_event(&list[j], reminder, stamp, &extra);
                let ghost before = calendar_events(cal);
                calendar_push_event(&mut cal, ev);
                assert(calendar_events(cal) == before.push((event_properties(ev), event_alarms(ev))));
                assert forall|q: int| 0 <= q < flat.len() implies is_class_event(
                    #[trigger] calendar_events(cal)[q],
                    flat[q],
                    reminder,
                ) by {
                    assert(calendar_events(cal)[q] == before[q]);
                }
                assert forall|q: int| 0 <= q < j + 1 implies is_class_event(
                    #[trigger] calendar_events(cal)[flat.len() + q],
                    here[q],
                    reminder,
                ) by {
                    assert(calendar_events(cal)[flat.len() + q] == if q < j {
                        before[flat.len() + q]
                    } else {
                        (event_properties(ev), event_alarms(ev))
                    });
                }
                assert forall|q: int| 0 <= q < j + 1 implies #[trigger] stamp_of(
                    calendar_events(cal)[flat.len() + q],
                ) == utc_stamp_text(stamp) by {
                    assert(calendar_events(cal)[flat.len() + q] == if q < j {
                        before[flat.len() + q]
                    } else {
                        (event_properties(ev), event_alarms(ev))
                    });
                }
                assert forall|k2: int, i: int|
                    0 <= k2 < k && 0 <= i < lv[k2].len() implies #[trigger] stamp_of(
                        calendar_events(cal)[course_offset(lv, k2) + i],
                    ) == stamp_of(calendar_events(cal)[course_offset(lv, k2)]) by {
                    lemma_course_offsets(lv, k2, k as int);
                    assert(calendar_events(cal)[course_offset(lv, k2) + i] == before[course_offset(lv, k2) + i]);
                    assert(calendar_events(cal)[course_offset(lv, k2)] == before[course_offset(lv, k2)]);
                    assert(stamp_of(before[course_offset(lv, k2) + i]) == stamp_of(before[course_offset(lv, k2)]));
                }
                j = j + 1;
            }
            assert forall|q: int| 0 <= q < (flat + here).len() implies is_class_event(
                #[trigger] calendar_events(cal)[q],
                (flat + here)[q],
                reminder,
            ) by {
                if q >= flat.len() {
                    assert(calendar_events(cal)[flat.len() + (q - flat.len())] == calendar_events(
                        cal,
                    )[q]);
                }
            }
            assert forall|k2: int, i: int|
                0 <= k2 < k + 1 && 0 <= i < lv[k2].len() implies #[trigger] stamp_of(
                    calendar_events(cal)[course_offset(lv, k2) + i],
                ) == stamp_of(calendar_events(cal)[course_offset(lv, k2)]) by {
                if k2 == k {
                    assert(course_offset(lv, k2) == flat.len());
                    assert(stamp_of(calendar_events(cal)[flat.len() + i]) == utc_stamp_text(stamp));
                    assert(stamp_of(calendar_events(cal)[flat.len() + 0int]) == utc_stamp_text(stamp));
                }
            }
            k = k + 1;
        }
        assert(lv.take(lists.len() as int) =~= lv);
        let ghost flat = lv.flatten_alt();
        let stamp = utc_now();
        let ghost wv = plans_view(weeks@);
        let mut j: usize = 0;
        while j < weeks.len()
            invariant
                j <= weeks.len(),
                datetime_valid(stamp),
                wv == plans_view(weeks@),
                plans_valid(wv),
                extra@.map_values(|q: (String, String)| (q.0@, q.1@)) == event_extra_properties(),
                calendar_properties(cal) == default_calendar_properties() + calendar_extra_properties(),
                calendar_events(cal).len() == flat.len() + j,
                forall|q: int|
                    0 <= q < flat.len() ==> is_class_event(
                        #[trigger] calendar_events(cal)[q],
                        flat[q],
                        reminder,
                    ),
                forall|q: int|
                    0 <= q < j ==> is_week_event(#[trigger] calendar_events(cal)[flat.len() + q], wv[q]),
                forall|q: int|
                    0 <= q < j ==> #[trigger] stamp_of(calendar_events(cal)[flat.len() + q])
                        == utc_stamp_text(stamp),
                flat == lv.flatten_alt(),
                forall|k2: int, i: int|
                    0 <= k2 < lv.len() && 0 <= i < lv[k2].len() ==> #[trigger] stamp_of(
                        calendar_events(cal)[course_offset(lv, k2) + i],
                    ) == stamp_of(calendar_events(cal)[course_offset(lv, k2)]),
            decreases weeks.len() - j,
        {
            assert(wv.len() == weeks.len());
            assert(weeks@[j as int]@ == wv[j as int]);
            assert(datetime_valid(wv[j as int].start) && datetime_valid(wv[j as int].end));
            let ev = week_event(&weeks[j], stamp, &extra);
            let ghost before = calendar_events(cal);
            calendar_push_event(&mut cal, ev);
            assert(calendar_events(cal) == before.push((event_properties(ev), event_alarms(ev))));
            assert forall|q: int| 0 <= q < flat.len() implies is_class_event(
                #[trigger] calendar_events(cal)[q],
                flat[q],
                reminder,
            ) by {
                assert(calendar_events(cal)[q] == before[q]);
            }
            assert forall|q: int| 0 <= q < j + 1 implies is_week_event(
                #[trigger] calendar_events(cal)[flat.len() + q],
                wv[q],
            ) by {
                assert(calendar_events(cal)[flat.len() + q] == if q < j {
                    before[flat.len() + q]
                } else {
                    (event_properties(ev), event_alarms(ev))
                });
            }
            assert forall|q: int| 0 <= q < j + 1 implies #[trigger] stamp_of(
                calendar_events(cal)[flat.len() + q],
            ) == utc_stamp_text(stamp) by {
                assert(calendar_events(cal)[flat.len() + q] == if q < j {
                    before[flat.len() + q]
                } else {
                    (event_properties(ev), event_alarms(ev))
                });
            }
            assert forall|k2: int, i: int|
                0 <= k2 < lv.len() && 0 <= i < lv[k2].len() implies #[trigger] stamp_of(
                    calendar_events(cal)[course_offset(lv, k2) + i],
                ) == stamp_of(calendar_events(cal)[course_offset(lv, k2)]) by {
                lemma_course_offsets(lv, k2, lv.len() as int);
                assert(lv.take(lv.len() as int) =~= lv);
                assert(calendar_events(cal)[course_offset(lv, k2) + i] == before[course_offset(lv, k2) + i]);
                assert(calendar_events(cal)[course_offset(lv, k2)] == before[course_offset(lv, k2)]);
                assert(stamp_of(before[course_offset(lv, k2) + i]) == stamp_of(before[course_offset(lv, k2)]));
            }
            j = j + 1;
        }
        assert forall|j2: int| 0 <= j2 < wv.len() implies #[trigger] stamp_of(
            calendar_events(cal)[flat.len() + j2],
        ) == stamp_of(calendar_events(cal)[flat.len() as int]) by {
            assert(stamp_of(calendar_events(cal)[flat.len() + 0int]) == utc_stamp_text(stamp));
        }
        proof {
            law_calendar_event_fields(cal, p, reminder);
        }
        cal
    }

    /// The timetable as a calendar, as `to_ical` builds it, or the first
    /// reason why it cannot be planned. On an error the courses may have
    /// gained meeting dates.
    pub fn checked_to_ical(&mut self, reminder: i32) -> (r: Result<icalendar::Calendar, IcalError>)
        ensures
            same_but_daylists(old(self)@, final(self)@),
            match (r, plan_spec(old(self)@, reminder)) {
                (Ok(cal), Ok(p)) => {
                    &&& final(self)@.classlist == p.classes
                    &&& calendar_of_plan(cal, p, reminder)
                    &&& forall|i: int|
                        0 <= i < p.class_events.flatten_alt().len() ==> (#[trigger] calendar_events(
                            cal,
                        )[i]).1 == seq![("This is an event reminder"@, reminder)]
                },
                (Err(e), Err(e2)) => e == e2,
                _ => false,
            },
    {
        let ghost t0 = self@;
        match self.plan_events(reminder) {
            Err(e) => Err(e),
            Ok(_) => {
                let ghost t1 = self@;
                proof {
                    lemma_replan(t0, t1, reminder);
                }
                let cal = self.to_ical(reminder);
                proof {
                    lemma_same_but_daylists_trans(t0, t1, self@);
                }
                Ok(cal)
            },
        }
    }

    pub fn new(firstweekdate: String, classlist: Vec<ClassInfo>, schedule: Schedule) -> (t: ICal)
        ensures
            t@ == (ICalView {
                firstweekdate: firstweekdate@,
                schedule: schedule@,
                classlist: classlist@.map_values(|c: ClassInfo| c@),
            }),
    {
        ICal { firstweekdate, schedule, classlist }
    }

    /// Plans the calendar: computes the meeting dates of every course (kept in
    /// the courses), then the meetings of each course, then the week events.
    pub fn plan_events(&mut self, reminder: i32) -> (r: Result<
        (Vec<Vec<EventPlan>>, Vec<EventPlan>),
        IcalError,
    >)
        ensures
            same_but_daylists(old(self)@, final(self)@),
            match (r, plan_spec(old(self)@, reminder)) {
                (Ok((ls, ws)), Ok(p)) => {
                    &&& final(self)@.classlist == p.classes
                    &&& plan_lists_view(ls@) == p.class_events
                    &&& plans_view(ws@) == p.week_events
                    &&& forall|i: int|
                        0 <= i < p.class_events.len() ==> plans_valid(#[trigger] p.class_events[i])
                    &&& plans_valid(p.week_events)
                },
                (Err(e), Err(e2)) => e == e2,
                _ => false,
            },
    {
        let ghost t0 = self@;
        let n = self.classlist.len();
        let mut k: usize = 0;
        assert(self@.classlist.take(0) =~= Seq::<ClassView>::empty());
        while k < n
            invariant
                k <= n,
                t0 == old(self)@,
                n == self.classlist.len(),
                t0.classlist.len() == n,
                same_but_daylists(t0, self@),
                forall|i: int| k <= i < n ==> #[trigger] self@.classlist[i] == t0.classlist[i],
                dated_classes(t0.firstweekdate, t0.classlist, k as nat) == Ok::<
                    Seq<ClassView>,
                    IcalError,
                >(self@.classlist.take(k as int)),
            decreases n - k,
        {
            let ghost before = self@.classlist;
            assert(before[k as int] == t0.classlist[k as int]);
            assert(before[k as int] == self.classlist@[k as int]@);
            let mut c = self.classlist.remove(k);
            assert(c@ == t0.classlist[k as int]);
            let r = c.with_startdate(self.firstweekdate.as_str());
            self.classlist.insert(k, c);
            assert(self@.classlist =~= before.update(k as int, c@));
            match r {
                Err(e) => {
                    proof {
                        lemma_dated_err_persists(
                            t0.firstweekdate,
                            t0.classlist,
                            (k + 1) as nat,
                            n as nat,
                        );
                    }
                    return Err(e);
                },
                Ok(()) => {},
            }
            assert(self@.classlist.take(k + 1) =~= before.take(k as int).push(c@));
            k = k + 1;
        }
        assert(self@.classlist.take(n as int) =~= self@.classlist);
        let ghost cs = self@.classlist;
        let mut lists: Vec<Vec<EventPlan>> = Vec::new();
        let mut j: usize = 0;
        assert(plan_lists_view(lists@) =~= Seq::<Seq<EventPlanView>>::empty());
        while j < n
            invariant
                j <= n,
                t0 == old(self)@,
                n == self.classlist.len(),
                cs == self@.classlist,
                same_but_daylists(t0, self@),
                dated_classes(t0.firstweekdate, t0.classlist, n as nat) == Ok::<
                    Seq<ClassView>,
                    IcalError,
                >(cs),
                class_event_lists(cs, self@.schedule, reminder, j as nat) == Ok::<
                    Seq<Seq<EventPlanView>>,
                    IcalError,
                >(plan_lists_view(lists@)),
                forall|i: int|
                    0 <= i < lists.len() ==> plans_valid(#[trigger] plan_lists_view(lists@)[i]),
            decreases n - j,
        {
            assert(self.classlist[j as int]@ == cs[j as int]);
            match plan_class(&self.classlist[j], &self.schedule, reminder) {
                Err(e) => {
                    proof {
                        lemma_lists_err_persists(
                            cs,
                            self@.schedule,
                            reminder,
                            (j + 1) as nat,
                            n as nat,
                        );
                    }
                    return Err(e);
                },
                Ok(l) => {
                    let ghost before = plan_lists_view(lists@);
                    let ghost lv = plans_view(l@);
                    lists.push(l);
                    assert(plan_lists_view(lists@) =~= before.push(lv));
                },
            }
            j = j + 1;
        }
        let weeks = match plan_weeks(&self.firstweekdate) {
            Err(e) => {
                return Err(e);
            },
            Ok(w) => w,
        };
        Ok((lists, weeks))
    }
}

fn midnight_of(d: CivilDate) -> (t: CivilDateTime)
    ensures
        t == midnight(d),
{
    CivilDateTime { date: d, hour: 0, minute: 0, second: 0 }
}

} // verus!
