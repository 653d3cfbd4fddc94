//! The class records and the bell schedule.
use vstd::prelude::*;
use crate::text::{decimal, push_char, push_decimal, uuid_shaped};

verus! {

/// One period of the bell schedule: its name and its start and end times,
/// written `HHMM`.
#[derive(Clone, Debug)]
pub struct ScheduleElement {
    pub name: String,
    pub start_time: String,
    pub end_time: String,
}

/// The bell schedule: `classtime[k]` is period `k + 1`.
#[derive(Clone, Debug)]
pub struct Schedule {
    pub classtime: Vec<ScheduleElement>,
}

impl View for ScheduleElement {
    /// Name, start time, end time.
    type V = (Seq<char>, Seq<char>, Seq<char>);

    open spec fn view(&self) -> (Seq<char>, Seq<char>, Seq<char>) {
        (self.name@, self.start_time@, self.end_time@)
    }
}

impl View for Schedule {
    type V = Seq<(Seq<char>, Seq<char>, Seq<char>)>;

    open spec fn view(&self) -> Seq<(Seq<char>, Seq<char>, Seq<char>)> {
        self.classtime@.map_values(|e: ScheduleElement| e@)
    }
}

/// One course as it meets on one day of the week.
///
/// `oe` is 1 for odd weeks only, 2 for even weeks only, 3 for every week;
/// `day` is the day of the week, Monday being 1; `week` holds week ranges
/// such as `1-16`; `classtime` holds the periods, 1-based; `daylist` holds the
/// dates (`YYYYMMDD`) on which the course meets, once they are computed.
#[derive(Clone, Debug)]
pub struct ClassInfo {
    pub name: String,
    pub oe: usize,
    pub day: usize,
    pub week: Vec<String>,
    pub classtime: Vec<usize>,
    pub classroom: String,
    pub daylist: Vec<String>,
}

/// A `ClassInfo` as plain values.
pub struct ClassView {
    pub name: Seq<char>,
    pub oe: usize,
    pub day: usize,
    pub week: Seq<Seq<char>>,
    pub classtime: Seq<usize>,
    pub classroom: Seq<char>,
    pub daylist: Seq<Seq<char>>,
}

impl View for ClassInfo {
    type V = ClassView;

    open spec fn view(&self) -> ClassView {
        ClassView {
            name: self.name@,
            oe: self.oe,
            day: self.day,
            week: self.week.deep_view(),
            classtime: self.classtime@,
            classroom: self.classroom@,
            daylist: self.daylist.deep_view(),
        }
    }
}

/// `acc` with each week of `extra` appended, in order, unless it is there already.
pub open spec fn merge_weeks(acc: Seq<Seq<char>>, extra: Seq<Seq<char>>) -> Seq<Seq<char>>
    decreases extra.len(),
{
    if extra.len() == 0 {
        acc
    } else {
        let before = merge_weeks(acc, extra.drop_last());
        if before.contains(extra.last()) {
            before
        } else {
            before.push(extra.last())
        }
    }
}

/// Merging keeps the weeks already there, in place, and then holds exactly
/// the weeks of both: every week of `extra` is present and nothing else is added.
pub proof fn law_merge_keeps_and_covers(acc: Seq<Seq<char>>, extra: Seq<Seq<char>>)
    ensures
        merge_weeks(acc, extra).len() >= acc.len(),
        merge_weeks(acc, extra).subrange(0, acc.len() as int) == acc,
        forall|i: int| 0 <= i < extra.len() ==> merge_weeks(acc, extra).contains(#[trigger] extra[i]),
        forall|w: Seq<char>| #[trigger] merge_weeks(acc, extra).contains(w) ==> acc.contains(w) || extra.contains(w),
    decreases extra.len(),
{
    if extra.len() > 0 {
        let init = extra.drop_last();
        law_merge_keeps_and_covers(acc, init);
        let before = merge_weeks(acc, init);
        let after = merge_weeks(acc, extra);
        assert forall|i: int| 0 <= i < extra.len() implies after.contains(#[trigger] extra[i]) by {
            if i < extra.len() - 1 {
                assert(init[i] == extra[i]);
                let k = choose|k: int| 0 <= k < before.len() && before[k] == init[i];
                assert(after[k] == before[k]);
            } else if !before.contains(extra.last()) {
                assert(after[before.len() as int] == extra.last());
            }
        }
        assert forall|w: Seq<char>| #[trigger] after.contains(w) implies acc.contains(w) || extra.contains(w) by {
            let k = choose|k: int| 0 <= k < after.len() && after[k] == w;
            if k < before.len() {
                assert(before[k] == w);
                assert(before.contains(w));
                if init.contains(w) {
                    let j = choose|j: int| 0 <= j < init.len() && init[j] == w;
                    assert(extra[j] == w);
                }
            } else {
                assert(extra[extra.len() - 1] == w);
            }
        }
        assert(after.subrange(0, acc.len() as int) =~= before.subrange(0, acc.len() as int));
    }
}

/// Merging never brings a week in twice.
pub proof fn law_merge_no_duplicates(acc: Seq<Seq<char>>, extra: Seq<Seq<char>>)
    requires
        acc.no_duplicates(),
    ensures
        merge_weeks(acc, extra).no_duplicates(),
    decreases extra.len(),
{
    if extra.len() > 0 {
        law_merge_no_duplicates(acc, extra.drop_last());
    }
}

/// Merging the same weeks a second time changes nothing.
pub proof fn law_merge_idempotent(acc: Seq<Seq<char>>, extra: Seq<Seq<char>>)
    ensures
        merge_weeks(merge_weeks(acc, extra), extra) == merge_weeks(acc, extra),
{
    let m = merge_weeks(acc, extra);
    law_merge_keeps_and_covers(acc, extra);
    lemma_merge_present(m, extra, extra.len() as int);
    assert(extra.take(extra.len() as int) =~= extra);
}

/// Merging weeks that are all present already changes nothing.
proof fn lemma_merge_present(acc: Seq<Seq<char>>, extra: Seq<Seq<char>>, k: int)
    requires
        0 <= k <= extra.len(),
        forall|i: int| 0 <= i < extra.len() ==> acc.contains(#[trigger] extra[i]),
    ensures
        merge_weeks(acc, extra.take(k)) == acc,
    decreases k,
{
    if k > 0 {
        lemma_merge_present(acc, extra, k - 1);
        assert(extra.take(k).drop_last() =~= extra.take(k - 1));
        assert(extra.take(k).last() == extra[k - 1]);
    }
    if k == extra.len() {
        assert(extra.take(k) =~= extra);
    }
}

/// The text that identifies a course: `name-oe-day-classroom`.
pub open spec fn identity_text(c: ClassView) -> Seq<char> {
    c.name + seq!['-'] + decimal(c.oe as nat) + seq!['-'] + decimal(c.day as nat) + seq!['-']
        + c.classroom
}

/// Two records of one course, whatever their weeks, periods and dates,
/// are identified alike.
pub proof fn law_identity_ignores_meetings(a: ClassView, b: ClassView)
    requires
        a.name == b.name,
        a.oe == b.oe,
        a.day == b.day,
        a.classroom == b.classroom,
    ensures
        uuid_v3_dns_text(identity_text(a)) == uuid_v3_dns_text(identity_text(b)),
{
}

/// What `Uuid::new_v3(&Uuid::NAMESPACE_DNS, name)` spells, hyphenated, for
/// the UTF-8 bytes of `name`.
pub uninterp spec fn uuid_v3_dns_text(name: Seq<char>) -> Seq<char>;

/// `uuid::Uuid::new_v3` in the DNS namespace on the UTF-8 bytes of `name`,
/// written out by `Display`. A name-based UUID depends on the name alone; the
/// result is named, and has the shape of a version-3 UUID.
#[verifier::external_body]
pub(crate) fn uuid_v3_dns(name: &str) -> (id: String)
    ensures
        id@ == uuid_v3_dns_text(name@),
        uuid_shaped(id@, '3'),
{
    uuid::Uuid::new_v3(&uuid::Uuid::NAMESPACE_DNS, name.as_bytes()).to_string()
}

/// Whether `v` is one of the strings in `list`.
pub fn contains_string(list: &Vec<String>, v: &String) -> (b: bool)
    ensures
        b == list.deep_view().contains(v@),
{
    let mut i: usize = 0;
    while i < list.len()
        invariant
            i <= list.len(),
            forall|j: int| 0 <= j < i ==> list.deep_view()[j] != v@,
        decreases list.len() - i,
    {
        if list[i] == *v {
            assert(list.deep_view()[i as int] == v@);
            return true;
        }
        i = i + 1;
    }
    assert(!list.deep_view().contains(v@));
    false
}

impl ClassInfo {
    pub fn new(
        name: String,
        oe: usize,
        day: usize,
        week: Vec<String>,
        classtime: Vec<usize>,
        classroom: String,
    ) -> (c: Self)
        ensures
            c@ == (ClassView {
                name: name@,
                oe,
                day,
                week: week.deep_view(),
                classtime: classtime@,
                classroom: classroom@,
                daylist: seq![],
            }),
    {
        let daylist: Vec<String> = Vec::new();
        assert(daylist.deep_view() =~= Seq::<Seq<char>>::empty());
        ClassInfo { name, oe, day, week, classtime, classroom, daylist }
    }

    /// Records that the course also meets in period `value`.
    pub fn add_classtime(&mut self, value: usize)
        ensures
            final(self)@ == (ClassView { classtime: old(self)@.classtime.push(value), ..old(self)@ }),
    {
        self.classtime.push(value);
    }

    /// Records one more week range.
    pub fn add_week(&mut self, value: String)
        ensures
            final(self)@ == (ClassView { week: old(self)@.week.push(value@), ..old(self)@ }),
    {
        let ghost before = self.week.deep_view();
        self.week.push(value);
        assert(self.week.deep_view() =~= before.push(value@));
    }

    /// Adds the week ranges of `rhs` that this record does not have yet.
    pub fn merge(&mut self, rhs: &ClassInfo) -> (r: &mut Self)
        ensures
            r@ == (ClassView { week: merge_weeks(old(self)@.week, rhs@.week), ..old(self)@ }),
            *final(self) == *final(r),
    {
        let ghost start = self@;
        let mut i: usize = 0;
        assert(rhs@.week.take(0) =~= Seq::<Seq<char>>::empty());
        while i < rhs.week.len()
            invariant
                i <= rhs.week.len(),
                self@ == (ClassView { week: merge_weeks(start.week, rhs@.week.take(i as int)), ..start }),
            decreases rhs.week.len() - i,
        {
            let v = &rhs.week[i];
            assert(rhs@.week.take(i + 1).drop_last() =~= rhs@.week.take(i as int));
            assert(rhs@.week.take(i + 1).last() == v@);
            if !contains_string(&self.week, v) {
                self.add_week(v.clone());
            }
            i = i + 1;
        }
        assert(rhs@.week.take(rhs.week.len() as int) =~= rhs@.week);
        self
    }

    /// The UUID (version 3, DNS namespace) of `name-oe-day-classroom`.
    pub fn identify(&self) -> (id: String)
        ensures
            id@ == uuid_v3_dns_text(identity_text(self@)),
            uuid_shaped(id@, '3'),
    {
        let mut key = self.name.clone();
        push_char(&mut key, '-');
        push_decimal(&mut key, self.oe);
        push_char(&mut key, '-');
        push_decimal(&mut key, self.day);
        push_char(&mut key, '-');
        key.append(self.classroom.as_str());
        assert(key@ =~= identity_text(self@));
        uuid_v3_dns(key.as_str())
    }
}

} // verus!
