//! Reading the personal class table: every cell of the weekly grid holds zero
//! or more course entries separated by `/`; each entry starts with a course
//! name from the course list and goes on with the classroom, the odd/even
//! mark and the week ranges.
use vstd::prelude::*;
use crate::pattern::{regex_captures, regex_compiles, Pattern};
use crate::text::{
    chars_of, decimal, digit_char, nonempty_pieces, push_char, push_decimal, remove_all,
    remove_occurrences, split_nonempty, starts_with, string_of, trim, trimmed,
};
use crate::typeddata::{uuid_v3_dns, uuid_v3_dns_text, ClassInfo, ClassView};

verus! {

/// Why a class table cannot be read.
#[derive(Debug, PartialEq, Eq, Structural)]
pub enum TableError {
    /// A row of the grid has fewer than seven cells.
    ShortRow,
    /// The last entry of a cell starts with no course name of the list.
    UnknownCourse,
    /// The text after a course name does not match the course pattern.
    MalformedCourse,
    /// The course pattern is not accepted by the regular-expression engine.
    BadPattern,
}

/// The pattern of the text after a course name: classroom, odd/even mark
/// (单 or 双), then week ranges such as `1-16,`.
pub open spec fn course_pattern() -> Seq<char> {
    "(\\w+)? *([\u{5355}\u{53cc}]?) *((\\d+-\\d+,?)+)"@
}

/// The entry text that marks an empty cell.
pub open spec fn empty_cell() -> Seq<char> {
    "&nbsp;"@
}

/// A course record under its key.
pub type Entry = (Seq<char>, ClassView);

pub open spec fn has_key(es: Seq<Entry>, id: Seq<char>) -> bool {
    exists|i: int| 0 <= i < es.len() && #[trigger] es[i].0 == id
}

pub open spec fn key_pos(es: Seq<Entry>, id: Seq<char>) -> int {
    choose|i: int| 0 <= i < es.len() && #[trigger] es[i].0 == id
}

pub open spec fn keys_unique(es: Seq<Entry>) -> bool {
    forall|i: int, j: int|
        0 <= i < es.len() && 0 <= j < es.len() && #[trigger] es[i].0 == #[trigger] es[j].0 ==> i
            == j
}

/// Stores `c` under `id`, replacing the record already there.
pub open spec fn upsert(es: Seq<Entry>, id: Seq<char>, c: ClassView) -> Seq<Entry> {
    if has_key(es, id) {
        es.update(key_pos(es, id), (id, c))
    } else {
        es.push((id, c))
    }
}

/// Adds period `t` to the record under `id`.
pub open spec fn add_period(es: Seq<Entry>, id: Seq<char>, t: usize) -> Seq<Entry> {
    let i = key_pos(es, id);
    es.update(i, (id, ClassView { classtime: es[i].1.classtime.push(t), ..es[i].1 }))
}

/// Whether `i` is the first position of a name in `names` that `course` starts with.
pub open spec fn is_first_prefix(names: Seq<Seq<char>>, course: Seq<char>, i: int) -> bool {
    &&& 0 <= i < names.len()
    &&& starts_with(course, names[i])
    &&& forall|j: int| 0 <= j < i ==> !starts_with(course, #[trigger] names[j])
}

/// The first name in `names` that `course` starts with.
pub open spec fn first_prefix(names: Seq<Seq<char>>, course: Seq<char>) -> Option<Seq<char>> {
    if exists|i: int| is_first_prefix(names, course, i) {
        Some(names[choose|i: int| is_first_prefix(names, course, i)])
    } else {
        None
    }
}

/// Capture group `i`, `None` where the match has no such group.
pub open spec fn group(caps: Seq<Option<Seq<char>>>, i: int) -> Option<Seq<char>> {
    if 0 <= i < caps.len() {
        caps[i]
    } else {
        None
    }
}

pub open spec fn text_or_empty(g: Option<Seq<char>>) -> Seq<char> {
    match g {
        Some(t) => t,
        None => seq![],
    }
}

/// 1 for odd weeks (单), 2 for even weeks (双), 3 for every week.
pub open spec fn odd_even_code(mark: Seq<char>) -> usize {
    if mark == seq!['\u{5355}'] {
        1
    } else if mark == seq!['\u{53cc}'] {
        2
    } else {
        3
    }
}

/// The text that the course pattern is matched against: the entry with the
/// course name removed, trimmed.
pub open spec fn course_details(course: Seq<char>, classname: Seq<char>) -> Seq<char> {
    trim(remove_all(course, classname))
}

/// The key of an entry: the UUID of the entry text followed by the 0-based day.
pub open spec fn entry_key(course: Seq<char>, day: nat) -> Seq<char> {
    uuid_v3_dns_text(course + decimal(day))
}

/// The record built from a matched entry in cell (`day`, `time`), both 0-based.
pub open spec fn class_from_captures(
    classname: Seq<char>,
    caps: Seq<Option<Seq<char>>>,
    day: nat,
    time: nat,
) -> ClassView {
    ClassView {
        name: classname,
        oe: odd_even_code(text_or_empty(group(caps, 2))),
        day: (day + 1) as usize,
        week: nonempty_pieces(text_or_empty(group(caps, 3)), ','),
        classtime: seq![(time + 1) as usize],
        classroom: text_or_empty(group(caps, 1)),
        daylist: seq![],
    }
}

/// The records after reading the entries `pieces` of cell (`day`, `time`).
/// An entry that starts with no course name is joined with `/` to the next
/// entry of the cell; a course already seen on that day only gains the period,
/// except in the first period, where its record is built again.
pub open spec fn read_entries(
    es: Seq<Entry>,
    names: Seq<Seq<char>>,
    pieces: Seq<Seq<char>>,
    day: nat,
    time: nat,
) -> Result<Seq<Entry>, TableError>
    decreases pieces.len(),
{
    if pieces.len() == 0 {
        Ok(es)
    } else {
        let course = pieces[0];
        let rest = pieces.drop_first();
        if course == empty_cell() {
            read_entries(es, names, rest, day, time)
        } else {
            let id = entry_key(course, day);
            if !has_key(es, id) || time == 0 {
                match first_prefix(names, course) {
                    None => if rest.len() > 0 {
                        read_entries(
                            es,
                            names,
                            rest.update(0, course + seq!['/'] + rest[0]),
                            day,
                            time,
                        )
                    } else {
                        Err(TableError::UnknownCourse)
                    },
                    Some(classname) => if !regex_compiles(course_pattern()) {
                        Err(TableError::BadPattern)
                    } else {
                        match regex_captures(course_pattern(), course_details(course, classname)) {
                            None => Err(TableError::MalformedCourse),
                            Some(caps) => read_entries(
                                upsert(es, id, class_from_captures(classname, caps, day, time)),
                                names,
                                rest,
                                day,
                                time,
                            ),
                        }
                    },
                }
            } else {
                read_entries(add_period(es, id, (time + 1) as usize), names, rest, day, time)
            }
        }
    }
}

/// The records after reading every cell before (`day`, `time`), day by day
/// and, within a day, period by period.
pub open spec fn read_cells(
    names: Seq<Seq<char>>,
    rows: Seq<Seq<Seq<char>>>,
    day: nat,
    time: nat,
) -> Result<Seq<Entry>, TableError>
    decreases day, time,
{
    if day == 0 && time == 0 {
        Ok(seq![])
    } else if time == 0 {
        read_cells(names, rows, (day - 1) as nat, rows.len())
    } else {
        match read_cells(names, rows, day, (time - 1) as nat) {
            Err(e) => Err(e),
            Ok(es) => read_entries(
                es,
                names,
                nonempty_pieces(rows[time - 1][day as int], '/'),
                day,
                (time - 1) as nat,
            ),
        }
    }
}

/// The course records of a class table with course list `names` and grid
/// `rows` (one row per period, one cell per day of the week).
pub open spec fn class_table_spec(names: Seq<Seq<char>>, rows: Seq<Seq<Seq<char>>>) -> Result<
    Seq<ClassView>,
    TableError,
> {
    if exists|r: int| 0 <= r < rows.len() && #[trigger] rows[r].len() < 7 {
        Err(TableError::ShortRow)
    } else {
        match read_cells(names, rows, 7, 0) {
            Err(e) => Err(e),
            Ok(es) => Ok(es.map_values(|e: Entry| e.1)),
        }
    }
}

/// Once reading fails, it fails the same way at every later cell.
proof fn lemma_error_persists(
    names: Seq<Seq<char>>,
    rows: Seq<Seq<Seq<char>>>,
    d: nat,
    t: nat,
    d2: nat,
    t2: nat,
)
    requires
        read_cells(names, rows, d, t) is Err,
        t <= rows.len(),
        d < d2 || (d == d2 && t <= t2),
    ensures
        read_cells(names, rows, d2, t2) == read_cells(names, rows, d, t),
    decreases d2, t2,
{
    if d2 == d && t2 == t {
    } else if t2 == 0 {
        lemma_error_persists(names, rows, d, t, (d2 - 1) as nat, rows.len());
    } else {
        lemma_error_persists(names, rows, d, t, d2, (t2 - 1) as nat);
    }
}

/// A course record that a grid with `periods` rows can give: a day of the
/// week, and at least one period, each a row of the grid.
pub open spec fn record_in_bounds(c: ClassView, periods: nat) -> bool {
    &&& 1 <= c.day <= 7
    &&& c.classtime.len() > 0
    &&& forall|i: int| 0 <= i < c.classtime.len() ==> 1 <= #[trigger] c.classtime[i] <= periods
}

pub open spec fn entries_in_bounds(es: Seq<Entry>, periods: nat) -> bool {
    forall|i: int| 0 <= i < es.len() ==> record_in_bounds(#[trigger] es[i].1, periods)
}

proof fn lemma_read_entries_in_bounds(
    es: Seq<Entry>,
    names: Seq<Seq<char>>,
    pieces: Seq<Seq<char>>,
    day: nat,
    time: nat,
    periods: nat,
)
    requires
        entries_in_bounds(es, periods),
        day < 7,
        time < periods,
        periods <= usize::MAX,
        read_entries(es, names, pieces, day, time) is Ok,
    ensures
        entries_in_bounds(read_entries(es, names, pieces, day, time)->Ok_0, periods),
    decreases pieces.len(),
{
    if pieces.len() > 0 {
        let course = pieces[0];
        let rest = pieces.drop_first();
        if course == empty_cell() {
            lemma_read_entries_in_bounds(es, names, rest, day, time, periods);
        } else {
            let id = entry_key(course, day);
            if !has_key(es, id) || time == 0 {
                match first_prefix(names, course) {
                    None => {
                        lemma_read_entries_in_bounds(
                            es,
                            names,
                            rest.update(0, course + seq!['/'] + rest[0]),
                            day,
                            time,
                            periods,
                        );
                    },
                    Some(classname) => {
                        let caps = regex_captures(course_pattern(), course_details(course, classname))->Some_0;
                        let c = class_from_captures(classname, caps, day, time);
                        let es2 = upsert(es, id, c);
                        assert(c.classtime[0] == (time + 1) as usize);
                        assert(record_in_bounds(c, periods));
                        assert(entries_in_bounds(es2, periods)) by {
                            if has_key(es, id) {
                                let k = key_pos(es, id);
                                assert(0 <= k < es.len());
                            }
                        }
                        lemma_read_entries_in_bounds(es2, names, rest, day, time, periods);
                    },
                }
            } else {
                let k = key_pos(es, id);
                assert(0 <= k < es.len());
                let es2 = add_period(es, id, (time + 1) as usize);
                assert(record_in_bounds(es2[k].1, periods)) by {
                    assert(record_in_bounds(es[k].1, periods));
                    let ct = es2[k].1.classtime;
                    assert forall|i: int| 0 <= i < ct.len() implies 1 <= #[trigger] ct[i] <= periods by {
                        if i < ct.len() - 1 {
                            assert(ct[i] == es[k].1.classtime[i]);
                        }
                    }
                }
                assert(entries_in_bounds(es2, periods)) by {
                    assert forall|i: int| 0 <= i < es2.len() implies record_in_bounds(
                        #[trigger] es2[i].1,
                        periods,
                    ) by {
                        if i != k {
                            assert(es2[i] == es[i]);
                        }
                    }
                }
                lemma_read_entries_in_bounds(es2, names, rest, day, time, periods);
            }
        }
    }
}

proof fn lemma_read_cells_in_bounds(
    names: Seq<Seq<char>>,
    rows: Seq<Seq<Seq<char>>>,
    day: nat,
    time: nat,
)
    requires
        day < 7 || (day == 7 && time == 0),
        time <= rows.len(),
        rows.len() <= usize::MAX,
        forall|r: int| 0 <= r < rows.len() ==> #[trigger] rows[r].len() >= 7,
        read_cells(names, rows, day, time) is Ok,
    ensures
        entries_in_bounds(read_cells(names, rows, day, time)->Ok_0, rows.len()),
    decreases day, time,
{
    if day == 0 && time == 0 {
    } else if time == 0 {
        lemma_read_cells_in_bounds(names, rows, (day - 1) as nat, rows.len());
    } else {
        lemma_read_cells_in_bounds(names, rows, day, (time - 1) as nat);
        let es = read_cells(names, rows, day, (time - 1) as nat)->Ok_0;
        lemma_read_entries_in_bounds(
            es,
            names,
            nonempty_pieces(rows[time - 1][day as int], '/'),
            day,
            (time - 1) as nat,
            rows.len(),
        );
    }
}

/// Every course record read from a class table meets on a day of the week
/// (1 to 7) and in at least one period, each period a row of the grid.
pub proof fn law_table_records_in_bounds(names: Seq<Seq<char>>, rows: Seq<Seq<Seq<char>>>)
    requires
        rows.len() <= usize::MAX,
    ensures
        class_table_spec(names, rows) matches Ok(cs) ==> forall|i: int|
            0 <= i < cs.len() ==> record_in_bounds(#[trigger] cs[i], rows.len()),
{
    if class_table_spec(names, rows) is Ok {
        lemma_read_cells_in_bounds(names, rows, 7, 0);
    }
}

/// The periods of `c` never go back.
pub open spec fn periods_sorted(c: ClassView) -> bool {
    forall|i: int, j: int|
        0 <= i <= j < c.classtime.len() ==> #[trigger] c.classtime[i] <= #[trigger] c.classtime[j]
}

/// The pieces of cell (`d`, `t`): its text split at `/`, empty pieces dropped.
pub open spec fn cell_pieces(rows: Seq<Seq<Seq<char>>>, t: int, d: int) -> Seq<Seq<char>> {
    nonempty_pieces(rows[t][d], '/')
}

/// Pieces `a` to `b` of `ps` joined with `/`, as reading a cell rejoins them.
pub open spec fn joined(ps: Seq<Seq<char>>, a: int, b: int) -> Seq<char>
    decreases b - a,
{
    if b <= a {
        ps[a]
    } else {
        joined(ps, a, b - 1) + seq!['/'] + ps[b]
    }
}

/// What is left to read of a cell whose pieces are `ps`: pieces `a` to `b`
/// rejoined, then the pieces after `b`.
pub open spec fn pieces_from(ps: Seq<Seq<char>>, a: int, b: int) -> Seq<Seq<char>> {
    if b < ps.len() {
        seq![joined(ps, a, b)] + ps.subrange(b + 1, ps.len() as int)
    } else {
        seq![]
    }
}

/// `key` is a key that column `d` of the grid can give a course read there.
pub open spec fn column_key(rows: Seq<Seq<Seq<char>>>, d: int, key: Seq<char>) -> bool {
    exists|t: int, a: int, b: int|
        0 <= t < rows.len() && 0 <= a <= b < cell_pieces(rows, t, d).len() && key == entry_key(
            #[trigger] joined(cell_pieces(rows, t, d), a, b),
            d as nat,
        )
}

/// No key that one day's column can give is a key that another day's can
/// give: the name-based UUIDs of the courses of different days do not collide.
pub open spec fn columns_keys_apart(rows: Seq<Seq<Seq<char>>>) -> bool {
    forall|key: Seq<char>, d1: int, d2: int|
        #![trigger column_key(rows, d1, key), column_key(rows, d2, key)]
        0 <= d1 < 7 && 0 <= d2 < 7 && d1 != d2 && column_key(rows, d1, key) ==> !column_key(
            rows,
            d2,
            key,
        )
}

/// The records read so far, up to the cells of day `day` (0-based) whose
/// periods are at most `bound`: each has sorted periods, was stored under a
/// key of its own day's column, and, if it is of day `day`, has no period
/// after `bound`.
pub open spec fn entries_sorted(es: Seq<Entry>, rows: Seq<Seq<Seq<char>>>, day: nat, bound: nat) -> bool {
    forall|i: int|
        0 <= i < es.len() ==> {
            &&& periods_sorted(#[trigger] es[i].1)
            &&& 1 <= es[i].1.day <= day + 1
            &&& column_key(rows, es[i].1.day - 1, es[i].0)
            &&& es[i].1.day == day + 1 ==> forall|k: int|
                0 <= k < es[i].1.classtime.len() ==> #[trigger] es[i].1.classtime[k] <= bound
        }
}

proof fn lemma_read_entries_sorted(
    es: Seq<Entry>,
    names: Seq<Seq<char>>,
    rows: Seq<Seq<Seq<char>>>,
    a: int,
    b: int,
    day: nat,
    time: nat,
)
    requires
        columns_keys_apart(rows),
        entries_sorted(es, rows, day, time + 1),
        day < 7,
        time < rows.len(),
        rows.len() <= usize::MAX,
        0 <= a <= b,
        read_entries(es, names, pieces_from(cell_pieces(rows, time as int, day as int), a, b), day, time) is Ok,
    ensures
        entries_sorted(
            read_entries(es, names, pieces_from(cell_pieces(rows, time as int, day as int), a, b), day, time)->Ok_0,
            rows,
            day,
            time + 1,
        ),
    decreases cell_pieces(rows, time as int, day as int).len() - b,
{
    let ps = cell_pieces(rows, time as int, day as int);
    let pieces = pieces_from(ps, a, b);
    if b < ps.len() {
        let course = pieces[0];
        let rest = pieces.drop_first();
        assert(course == joined(ps, a, b));
        assert(rest =~= pieces_from(ps, b + 1, b + 1)) by {
            if b + 1 < ps.len() {
                assert(joined(ps, b + 1, b + 1) == ps[b + 1]);
            }
        }
        if course == empty_cell() {
            lemma_read_entries_sorted(es, names, rows, b + 1, b + 1, day, time);
        } else {
            let id = entry_key(course, day);
            assert(column_key(rows, day as int, id)) by {
                assert(id == entry_key(joined(cell_pieces(rows, time as int, day as int), a, b), day));
            }
            if !has_key(es, id) || time == 0 {
                match first_prefix(names, course) {
                    None => {
                        assert(rest.update(0, course + seq!['/'] + rest[0]) =~= pieces_from(ps, a, b + 1));
                        lemma_read_entries_sorted(es, names, rows, a, b + 1, day, time);
                    },
                    Some(classname) => {
                        let caps = regex_captures(course_pattern(), course_details(course, classname))->Some_0;
                        let c = class_from_captures(classname, caps, day, time);
                        let es2 = upsert(es, id, c);
                        assert(periods_sorted(c));
                        assert(entries_sorted(es2, rows, day, time + 1)) by {
                            if has_key(es, id) {
                                let k = key_pos(es, id);
                                assert(0 <= k < es.len());
                                assert forall|i: int| 0 <= i < es2.len() implies {
                                    &&& periods_sorted(#[trigger] es2[i].1)
                                    &&& 1 <= es2[i].1.day <= day + 1
                                    &&& column_key(rows, es2[i].1.day - 1, es2[i].0)
                                    &&& es2[i].1.day == day + 1 ==> forall|q: int|
                                        0 <= q < es2[i].1.classtime.len() ==> #[trigger] es2[i].1.classtime[q]
                                            <= time + 1
                                } by {
                                    if i != k {
                                        assert(es2[i] == es[i]);
                                    }
                                }
                            } else {
                                assert forall|i: int| 0 <= i < es2.len() implies {
                                    &&& periods_sorted(#[trigger] es2[i].1)
                                    &&& 1 <= es2[i].1.day <= day + 1
                                    &&& column_key(rows, es2[i].1.day - 1, es2[i].0)
                                    &&& es2[i].1.day == day + 1 ==> forall|q: int|
                                        0 <= q < es2[i].1.classtime.len() ==> #[trigger] es2[i].1.classtime[q]
                                            <= time + 1
                                } by {
                                    if i < es.len() {
                                        assert(es2[i] == es[i]);
                                    }
                                }
                            }
                        }
                        lemma_read_entries_sorted(es2, names, rows, b + 1, b + 1, day, time);
                    },
                }
            } else {
                let k = key_pos(es, id);
                assert(0 <= k < es.len() && es[k].0 == id);
                assert(es[k].1.day == day + 1) by {
                    assert(column_key(rows, es[k].1.day - 1, id));
                    if es[k].1.day - 1 != day as int {
                        assert(!column_key(rows, es[k].1.day - 1, id));
                    }
                }
                let es2 = add_period(es, id, (time + 1) as usize);
                let old_ct = es[k].1.classtime;
                let ct = es2[k].1.classtime;
                assert(ct == old_ct.push((time + 1) as usize));
                assert(periods_sorted(es2[k].1)) by {
                    assert forall|i: int, j: int| 0 <= i <= j < ct.len() implies #[trigger] ct[i]
                        <= #[trigger] ct[j] by {
                        if j == ct.len() - 1 {
                            if i < j {
                                assert(old_ct[i] <= time + 1);
                            }
                        } else {
                            assert(ct[i] == old_ct[i] && ct[j] == old_ct[j]);
                        }
                    }
                }
                assert(entries_sorted(es2, rows, day, time + 1)) by {
                    assert forall|i: int| 0 <= i < es2.len() implies {
                        &&& periods_sorted(#[trigger] es2[i].1)
                        &&& 1 <= es2[i].1.day <= day + 1
                        &&& column_key(rows, es2[i].1.day - 1, es2[i].0)
                        &&& es2[i].1.day == day + 1 ==> forall|q: int|
                            0 <= q < es2[i].1.classtime.len() ==> #[trigger] es2[i].1.classtime[q]
                                <= time + 1
                    } by {
                        if i != k {
                            assert(es2[i] == es[i]);
                        } else {
                            assert forall|q: int| 0 <= q < ct.len() implies #[trigger] ct[q] <= time + 1 by {
                                if q < ct.len() - 1 {
                                    assert(ct[q] == old_ct[q]);
                                }
                            }
                        }
                    }
                }
                lemma_read_entries_sorted(es2, names, rows, b + 1, b + 1, day, time);
            }
        }
    }
}

proof fn lemma_read_cells_sorted(
    names: Seq<Seq<char>>,
    rows: Seq<Seq<Seq<char>>>,
    day: nat,
    time: nat,
)
    requires
        columns_keys_apart(rows),
        day < 7 || (day == 7 && time == 0),
        time <= rows.len(),
        rows.len() <= usize::MAX,
        read_cells(names, rows, day, time) is Ok,
    ensures
        entries_sorted(read_cells(names, rows, day, time)->Ok_0, rows, day, time),
    decreases day, time,
{
    if day == 0 && time == 0 {
    } else if time == 0 {
        lemma_read_cells_sorted(names, rows, (day - 1) as nat, rows.len());
    } else {
        lemma_read_cells_sorted(names, rows, day, (time - 1) as nat);
        let es = read_cells(names, rows, day, (time - 1) as nat)->Ok_0;
        let ps = cell_pieces(rows, time - 1, day as int);
        assert(pieces_from(ps, 0, 0) =~= ps) by {
            if ps.len() > 0 {
                assert(joined(ps, 0, 0) == ps[0]);
            }
        }
        lemma_read_entries_sorted(es, names, rows, 0, 0, day, (time - 1) as nat);
    }
}

/// Every course record read from a class table lists its periods in order,
/// provided the keys of courses read on different days do not collide.
pub proof fn law_table_periods_sorted(names: Seq<Seq<char>>, rows: Seq<Seq<Seq<char>>>)
    requires
        rows.len() <= usize::MAX,
        columns_keys_apart(rows),
    ensures
        class_table_spec(names, rows) matches Ok(cs) ==> forall|i: int|
            0 <= i < cs.len() ==> periods_sorted(#[trigger] cs[i]),
{
    if class_table_spec(names, rows) is Ok {
        lemma_read_cells_sorted(names, rows, 7, 0);
        let es = read_cells(names, rows, 7, 0)->Ok_0;
        let cs = es.map_values(|e: Entry| e.1);
        assert forall|i: int| 0 <= i < cs.len() implies periods_sorted(#[trigger] cs[i]) by {
            assert(periods_sorted(es[i].1));
        }
    }
}

/// The texts that reading the grid hashes into record keys, a run of a
/// cell's pieces rejoined with `/` followed by the 0-based day, have distinct
/// name-based UUIDs when they are distinct texts.
pub open spec fn grid_names_distinct(rows: Seq<Seq<Seq<char>>>) -> bool {
    forall|t1: int, d1: int, a1: int, b1: int, t2: int, d2: int, a2: int, b2: int|
        #![trigger joined(cell_pieces(rows, t1, d1), a1, b1), joined(cell_pieces(rows, t2, d2), a2, b2)]
        0 <= t1 < rows.len() && 0 <= d1 < 7 && 0 <= a1 <= b1 < cell_pieces(rows, t1, d1).len() && 0
            <= t2 < rows.len() && 0 <= d2 < 7 && 0 <= a2 <= b2 < cell_pieces(rows, t2, d2).len()
            && uuid_v3_dns_text(joined(cell_pieces(rows, t1, d1), a1, b1) + decimal(d1 as nat))
            == uuid_v3_dns_text(joined(cell_pieces(rows, t2, d2), a2, b2) + decimal(d2 as nat))
            ==> joined(cell_pieces(rows, t1, d1), a1, b1) + decimal(d1 as nat) == joined(
            cell_pieces(rows, t2, d2),
            a2,
            b2,
        ) + decimal(d2 as nat)
}

proof fn lemma_day_suffix(x: Seq<char>, d1: nat, y: Seq<char>, d2: nat)
    requires
        d1 < 10,
        d2 < 10,
        x + decimal(d1) == y + decimal(d2),
    ensures
        d1 == d2,
{
    assert(decimal(d1) == seq![digit_char(d1)]);
    assert(decimal(d2) == seq![digit_char(d2)]);
    assert((x + decimal(d1)).last() == digit_char(d1));
    assert((y + decimal(d2)).last() == digit_char(d2));
    assert(digit_char(d1) as u32 == d1 + 48);
    assert(digit_char(d2) as u32 == d2 + 48);
}

/// When the grid's texts have distinct UUIDs, no key that one day's column
/// gives is one that another day's column gives.
proof fn lemma_keys_apart(rows: Seq<Seq<Seq<char>>>)
    requires
        grid_names_distinct(rows),
    ensures
        columns_keys_apart(rows),
{
    assert forall|key: Seq<char>, d1: int, d2: int|
        0 <= d1 < 7 && 0 <= d2 < 7 && d1 != d2 && column_key(rows, d1, key) implies !column_key(
        rows,
        d2,
        key,
    ) by {
        if column_key(rows, d2, key) {
            let (t1, a1, b1) = choose|t: int, a: int, b: int|
                0 <= t < rows.len() && 0 <= a <= b < cell_pieces(rows, t, d1).len() && key == entry_key(
                    #[trigger] joined(cell_pieces(rows, t, d1), a, b),
                    d1 as nat,
                );
            let (t2, a2, b2) = choose|t: int, a: int, b: int|
                0 <= t < rows.len() && 0 <= a <= b < cell_pieces(rows, t, d2).len() && key == entry_key(
                    #[trigger] joined(cell_pieces(rows, t, d2), a, b),
                    d2 as nat,
                );
            let x = joined(cell_pieces(rows, t1, d1), a1, b1);
            let y = joined(cell_pieces(rows, t2, d2), a2, b2);
            assert(x + decimal(d1 as nat) == y + decimal(d2 as nat));
            lemma_day_suffix(x, d1 as nat, y, d2 as nat);
        }
    }
}

/// Cell (`t`, `d`) holds a course entry: a piece that is not `&nbsp;`.
pub open spec fn has_course(rows: Seq<Seq<Seq<char>>>, t: int, d: int) -> bool {
    exists|j: int|
        0 <= j < cell_pieces(rows, t, d).len() && #[trigger] cell_pieces(rows, t, d)[j] != empty_cell()
}

/// Record `e` meets on day `d + 1` in period `t + 1`.
pub open spec fn covers(e: Entry, d: int, t: int) -> bool {
    e.1.day == d + 1 && e.1.classtime.contains((t + 1) as usize)
}

pub open spec fn covered(es: Seq<Entry>, d: int, t: int) -> bool {
    exists|i: int| 0 <= i < es.len() && #[trigger] covers(es[i], d, t)
}

/// Every record meets on a day up to `day + 1` and is stored under a key of
/// its own day's column.
pub open spec fn entries_keyed(es: Seq<Entry>, rows: Seq<Seq<Seq<char>>>, day: nat) -> bool {
    forall|i: int|
        0 <= i < es.len() ==> 1 <= (#[trigger] es[i]).1.day <= day + 1 && column_key(
            rows,
            es[i].1.day - 1,
            es[i].0,
        )
}

/// Every cell read before cell (`time`, `day`) that holds a course entry has a
/// record meeting on its day in its period.
pub open spec fn cover_upto(es: Seq<Entry>, rows: Seq<Seq<Seq<char>>>, day: nat, time: nat) -> bool {
    forall|t: int, d: int|
        0 <= d < 7 && 0 <= t < rows.len() && (d < day || (d == day && t < time)) && #[trigger] has_course(
            rows,
            t,
            d,
        ) ==> covered(es, d, t)
}

/// What is left of a cell still has a course entry to read.
pub open spec fn pending(ps: Seq<Seq<char>>, a: int, b: int) -> bool {
    &&& b < ps.len()
    &&& (joined(ps, a, b) != empty_cell() || exists|j: int| b < j < ps.len() && #[trigger] ps[j] != empty_cell())
}

proof fn lemma_join_not_empty(x: Seq<char>, y: Seq<char>)
    ensures
        x + seq!['/'] + y != empty_cell(),
{
    reveal_strlit("&nbsp;");
    let z = x + seq!['/'] + y;
    if z == empty_cell() {
        assert(z[x.len() as int] == '/');
        assert(empty_cell().len() == 6);
        assert(empty_cell()[0] != '/' && empty_cell()[1] != '/' && empty_cell()[2] != '/');
        assert(empty_cell()[3] != '/' && empty_cell()[4] != '/' && empty_cell()[5] != '/');
    }
}

proof fn lemma_read_entries_cover(
    es: Seq<Entry>,
    names: Seq<Seq<char>>,
    rows: Seq<Seq<Seq<char>>>,
    a: int,
    b: int,
    day: nat,
    time: nat,
)
    requires
        columns_keys_apart(rows),
        entries_keyed(es, rows, day),
        cover_upto(es, rows, day, time),
        day < 7,
        time < rows.len(),
        0 <= a <= b,
        read_entries(es, names, pieces_from(cell_pieces(rows, time as int, day as int), a, b), day, time) is Ok,
    ensures
        ({
            let r = read_entries(
                es,
                names,
                pieces_from(cell_pieces(rows, time as int, day as int), a, b),
                day,
                time,
            )->Ok_0;
            &&& entries_keyed(r, rows, day)
            &&& cover_upto(r, rows, day, time)
            &&& (covered(es, day as int, time as int) || pending(
                cell_pieces(rows, time as int, day as int),
                a,
                b,
            )) ==> covered(r, day as int, time as int)
        }),
    decreases cell_pieces(rows, time as int, day as int).len() - b,
{
    let ps = cell_pieces(rows, time as int, day as int);
    let pieces = pieces_from(ps, a, b);
    if b < ps.len() {
        let course = pieces[0];
        let rest = pieces.drop_first();
        assert(course == joined(ps, a, b));
        assert(rest =~= pieces_from(ps, b + 1, b + 1)) by {
            if b + 1 < ps.len() {
                assert(joined(ps, b + 1, b + 1) == ps[b + 1]);
            }
        }
        assert(pending(ps, a, b) && course == empty_cell() ==> pending(ps, b + 1, b + 1)) by {
            if pending(ps, a, b) && course == empty_cell() {
                let j = choose|j: int| b < j < ps.len() && #[trigger] ps[j] != empty_cell();
                assert(joined(ps, b + 1, b + 1) == ps[b + 1]);
                if j > b + 1 {
                    assert(ps[j] != empty_cell());
                }
            }
        }
        if course == empty_cell() {
            lemma_read_entries_cover(es, names, rows, b + 1, b + 1, day, time);
        } else {
            let id = entry_key(course, day);
            assert(column_key(rows, day as int, id)) by {
                assert(id == entry_key(joined(cell_pieces(rows, time as int, day as int), a, b), day));
            }
            if !has_key(es, id) || time == 0 {
                match first_prefix(names, course) {
                    None => {
                        assert(rest.update(0, course + seq!['/'] + rest[0]) =~= pieces_from(ps, a, b + 1));
                        lemma_join_not_empty(joined(ps, a, b), ps[b + 1]);
                        assert(pending(ps, a, b + 1));
                        lemma_read_entries_cover(es, names, rows, a, b + 1, day, time);
                    },
                    Some(classname) => {
                        let caps = regex_captures(course_pattern(), course_details(course, classname))->Some_0;
                        let c = class_from_captures(classname, caps, day, time);
                        let es2 = upsert(es, id, c);
                        assert(c.classtime[0] == (time + 1) as usize);
                        assert(c.classtime.contains((time + 1) as usize));
                        let kk = if has_key(es, id) { key_pos(es, id) } else { es.len() as int };
                        assert(0 <= kk < es2.len() && es2[kk] == (id, c));
                        assert(covers(es2[kk], day as int, time as int));
                        if has_key(es, id) {
                            assert(es[kk].0 == id);
                            assert(es[kk].1.day == day + 1) by {
                                assert(column_key(rows, es[kk].1.day - 1, id));
                                if es[kk].1.day - 1 != day as int {
                                    assert(!column_key(rows, es[kk].1.day - 1, id));
                                }
                            }
                        }
                        assert(entries_keyed(es2, rows, day)) by {
                            assert forall|i: int| 0 <= i < es2.len() implies 1 <= (#[trigger] es2[i]).1.day
                                <= day + 1 && column_key(rows, es2[i].1.day - 1, es2[i].0) by {
                                if i != kk {
                                    assert(es2[i] == es[i]);
                                }
                            }
                        }
                        assert(cover_upto(es2, rows, day, time)) by {
                            assert forall|t: int, d: int|
                                0 <= d < 7 && 0 <= t < rows.len() && (d < day || (d == day && t < time))
                                    && #[trigger] has_course(rows, t, d) implies covered(es2, d, t) by {
                                let i = choose|i: int| 0 <= i < es.len() && #[trigger] covers(es[i], d, t);
                                if i != kk {
                                    assert(es2[i] == es[i]);
                                    assert(covers(es2[i], d, t));
                                }
                            }
                        }
                        lemma_read_entries_cover(es2, names, rows, b + 1, b + 1, day, time);
                    },
                }
            } else {
                let k = key_pos(es, id);
                assert(0 <= k < es.len() && es[k].0 == id);
                assert(es[k].1.day == day + 1) by {
                    assert(column_key(rows, es[k].1.day - 1, id));
                    if es[k].1.day - 1 != day as int {
                        assert(!column_key(rows, es[k].1.day - 1, id));
                    }
                }
                let es2 = add_period(es, id, (time + 1) as usize);
                let old_ct = es[k].1.classtime;
                let ct = es2[k].1.classtime;
                assert(ct == old_ct.push((time + 1) as usize));
                assert(ct[ct.len() - 1] == (time + 1) as usize);
                assert(covers(es2[k], day as int, time as int));
                assert forall|v: usize| old_ct.contains(v) implies ct.contains(v) by {
                    let q = choose|q: int| 0 <= q < old_ct.len() && old_ct[q] == v;
                    assert(ct[q] == v);
                }
                assert(entries_keyed(es2, rows, day)) by {
                    assert forall|i: int| 0 <= i < es2.len() implies 1 <= (#[trigger] es2[i]).1.day
                        <= day + 1 && column_key(rows, es2[i].1.day - 1, es2[i].0) by {
                        if i != k {
                            assert(es2[i] == es[i]);
                        }
                    }
                }
                assert(cover_upto(es2, rows, day, time)) by {
                    assert forall|t: int, d: int|
                        0 <= d < 7 && 0 <= t < rows.len() && (d < day || (d == day && t < time))
                            && #[trigger] has_course(rows, t, d) implies covered(es2, d, t) by {
                        let i = choose|i: int| 0 <= i < es.len() && #[trigger] covers(es[i], d, t);
                        if i != k {
                            assert(es2[i] == es[i]);
                        }
                        assert(covers(es2[i], d, t));
                    }
                }
                lemma_read_entries_cover(es2, names, rows, b + 1, b + 1, day, time);
            }
        }
    }
}

proof fn lemma_read_cells_cover(names: Seq<Seq<char>>, rows: Seq<Seq<Seq<char>>>, day: nat, time: nat)
    requires
        columns_keys_apart(rows),
        day < 7 || (day == 7 && time == 0),
        time <= rows.len(),
        read_cells(names, rows, day, time) is Ok,
    ensures
        entries_keyed(read_cells(names, rows, day, time)->Ok_0, rows, day),
        cover_upto(read_cells(names, rows, day, time)->Ok_0, rows, day, time),
    decreases day, time,
{
    if day == 0 && time == 0 {
    } else if time == 0 {
        lemma_read_cells_cover(names, rows, (day - 1) as nat, rows.len());
    } else {
        lemma_read_cells_cover(names, rows, day, (time - 1) as nat);
        let es = read_cells(names, rows, day, (time - 1) as nat)->Ok_0;
        let tt = time - 1;
        let ps = cell_pieces(rows, tt, day as int);
        assert(pieces_from(ps, 0, 0) =~= ps) by {
            if ps.len() > 0 {
                assert(joined(ps, 0, 0) == ps[0]);
            }
        }
        lemma_read_entries_cover(es, names, rows, 0, 0, day, tt as nat);
        let r = read_cells(names, rows, day, time)->Ok_0;
        assert(has_course(rows, tt, day as int) ==> pending(ps, 0, 0)) by {
            if has_course(rows, tt, day as int) {
                let j = choose|j: int| 0 <= j < ps.len() && #[trigger] ps[j] != empty_cell();
                assert(joined(ps, 0, 0) == ps[0]);
                if j > 0 {
                    assert(ps[j] != empty_cell());
                }
            }
        }
    }
}

/// Some record in `cs` meets on day `d + 1` in period `t + 1`.
pub open spec fn has_record_at(cs: Seq<ClassView>, d: int, t: int) -> bool {
    exists|i: int| 0 <= i < cs.len() && (#[trigger] cs[i]).day == d + 1 && cs[i].classtime.contains((t + 1) as usize)
}

/// Every cell of the grid that holds a course entry gives a record that
/// meets on that cell's day in that cell's period: a course entry in
/// column `d` (Monday being 0) and row `t` is read as meeting on day
/// `d + 1` in period `t + 1`, and is never folded into another day's record,
/// provided the name-based UUIDs of the texts the grid is read by do not
/// collide.
pub proof fn law_table_cells_covered(names: Seq<Seq<char>>, rows: Seq<Seq<Seq<char>>>)
    requires
        grid_names_distinct(rows),
    ensures
        class_table_spec(names, rows) matches Ok(cs) ==> forall|t: int, d: int|
            0 <= t < rows.len() && 0 <= d < 7 && #[trigger] has_course(rows, t, d) ==> has_record_at(cs, d, t),
{
    if class_table_spec(names, rows) is Ok {
        lemma_keys_apart(rows);
        lemma_read_cells_cover(names, rows, 7, 0);
        let es = read_cells(names, rows, 7, 0)->Ok_0;
        let cs = es.map_values(|e: Entry| e.1);
        assert forall|t: int, d: int|
            0 <= t < rows.len() && 0 <= d < 7 && #[trigger] has_course(rows, t, d) implies has_record_at(
            cs,
            d,
            t,
        ) by {
            assert(covered(es, d, t));
            let i = choose|i: int| 0 <= i < es.len() && #[trigger] covers(es[i], d, t);
            assert(cs[i] == es[i].1);
        }
    }
}

pub open spec fn entries_named(es: Seq<Entry>, names: Seq<Seq<char>>) -> bool {
    forall|i: int| 0 <= i < es.len() ==> names.contains(#[trigger] es[i].1.name)
}

proof fn lemma_read_entries_named(
    es: Seq<Entry>,
    names: Seq<Seq<char>>,
    pieces: Seq<Seq<char>>,
    day: nat,
    time: nat,
)
    requires
        entries_named(es, names),
        read_entries(es, names, pieces, day, time) is Ok,
    ensures
        entries_named(read_entries(es, names, pieces, day, time)->Ok_0, names),
    decreases pieces.len(),
{
    if pieces.len() > 0 {
        let course = pieces[0];
        let rest = pieces.drop_first();
        if course == empty_cell() {
            lemma_read_entries_named(es, names, rest, day, time);
        } else {
            let id = entry_key(course, day);
            if !has_key(es, id) || time == 0 {
                match first_prefix(names, course) {
                    None => {
                        lemma_read_entries_named(
                            es,
                            names,
                            rest.update(0, course + seq!['/'] + rest[0]),
                            day,
                            time,
                        );
                    },
                    Some(classname) => {
                        let j = choose|j: int| is_first_prefix(names, course, j);
                        assert(names[j] == classname);
                        let caps = regex_captures(course_pattern(), course_details(course, classname))->Some_0;
                        let c = class_from_captures(classname, caps, day, time);
                        let es2 = upsert(es, id, c);
                        assert(entries_named(es2, names)) by {
                            assert forall|i: int| 0 <= i < es2.len() implies names.contains(
                                #[trigger] es2[i].1.name,
                            ) by {
                                if es2[i].1.name != classname {
                                    if has_key(es, id) {
                                        assert(es2[i] == es[i]);
                                    } else {
                                        assert(i < es.len());
                                        assert(es2[i] == es[i]);
                                    }
                                }
                            }
                        }
                        lemma_read_entries_named(es2, names, rest, day, time);
                    },
                }
            } else {
                let k = key_pos(es, id);
                assert(0 <= k < es.len());
                let es2 = add_period(es, id, (time + 1) as usize);
                assert(entries_named(es2, names)) by {
                    assert forall|i: int| 0 <= i < es2.len() implies names.contains(
                        #[trigger] es2[i].1.name,
                    ) by {
                        assert(es2[i].1.name == es[i].1.name);
                    }
                }
                lemma_read_entries_named(es2, names, rest, day, time);
            }
        }
    }
}

proof fn lemma_read_cells_named(names: Seq<Seq<char>>, rows: Seq<Seq<Seq<char>>>, day: nat, time: nat)
    requires
        time <= rows.len(),
        read_cells(names, rows, day, time) is Ok,
    ensures
        entries_named(read_cells(names, rows, day, time)->Ok_0, names),
    decreases day, time,
{
    if day == 0 && time == 0 {
    } else if time == 0 {
        lemma_read_cells_named(names, rows, (day - 1) as nat, rows.len());
    } else {
        lemma_read_cells_named(names, rows, day, (time - 1) as nat);
        let es = read_cells(names, rows, day, (time - 1) as nat)->Ok_0;
        lemma_read_entries_named(
            es,
            names,
            nonempty_pieces(rows[time - 1][day as int], '/'),
            day,
            (time - 1) as nat,
        );
    }
}

/// Every course record read from a class table bears one of the course
/// names of the course list.
pub proof fn law_table_names_from_list(names: Seq<Seq<char>>, rows: Seq<Seq<Seq<char>>>)
    ensures
        class_table_spec(names, rows) matches Ok(cs) ==> forall|i: int|
            0 <= i < cs.len() ==> names.contains(#[trigger] cs[i].name),
{
    if class_table_spec(names, rows) is Ok {
        lemma_read_cells_named(names, rows, 7, 0);
        let es = read_cells(names, rows, 7, 0)->Ok_0;
        let cs = es.map_values(|e: Entry| e.1);
        assert forall|i: int| 0 <= i < cs.len() implies names.contains(#[trigger] cs[i].name) by {
            assert(names.contains(es[i].1.name));
        }
    }
}

pub open spec fn entries_of(keys: Seq<String>, infos: Seq<ClassInfo>) -> Seq<Entry> {
    Seq::new(keys.len(), |i: int| (keys[i]@, infos[i]@))
}

/// The position of `id` among `keys`.
fn find_key(keys: &Vec<String>, infos: &Vec<ClassInfo>, id: &String) -> (r: Option<usize>)
    requires
        keys.len() == infos.len(),
        keys_unique(entries_of(keys@, infos@)),
    ensures
        r is Some <==> has_key(entries_of(keys@, infos@), id@),
        r matches Some(i) ==> i == key_pos(entries_of(keys@, infos@), id@) && i < keys.len(),
{
    let ghost es = entries_of(keys@, infos@);
    let mut i: usize = 0;
    while i < keys.len()
        invariant
            i <= keys.len(),
            keys.len() == infos.len(),
            es == entries_of(keys@, infos@),
            keys_unique(es),
            forall|j: int| 0 <= j < i ==> es[j].0 != id@,
        decreases keys.len() - i,
    {
        if keys[i] == *id {
            assert(es[i as int].0 == id@);
            assert(has_key(es, id@));
            let ghost k = key_pos(es, id@);
            assert(0 <= k < es.len() && es[k].0 == id@);
            assert(es[k].0 == es[i as int].0);
            assert(k == i as int);
            return Some(i);
        }
        i = i + 1;
    }
    assert(!has_key(es, id@));
    None
}

/// The position of the first name in `names` that `course` starts with.
fn first_prefix_index(names: &Vec<String>, course: &Vec<char>) -> (r: Option<usize>)
    ensures
        r is Some <==> first_prefix(names.deep_view(), course@) is Some,
        r matches Some(i) ==> i < names.len() && first_prefix(names.deep_view(), course@) == Some(
            names.deep_view()[i as int],
        ),
{
    let ghost ns = names.deep_view();
    let mut i: usize = 0;
    while i < names.len()
        invariant
            i <= names.len(),
            ns == names.deep_view(),
            forall|j: int| 0 <= j < i ==> !starts_with(course@, #[trigger] ns[j]),
        decreases names.len() - i,
    {
        let name = chars_of(names[i].as_str());
        assert(name@ == ns[i as int]);
        if name.len() <= course.len() && starts_at_zero(course, &name) {
            assert(is_first_prefix(ns, course@, i as int));
            let ghost k = choose|k: int| is_first_prefix(ns, course@, k);
            assert(k == i) by {
                if k < i {
                    assert(!starts_with(course@, ns[k]));
                } else if k > i {
                    assert(!starts_with(course@, ns[i as int]));
                }
            }
            return Some(i);
        }
        i = i + 1;
    }
    assert forall|k: int| !is_first_prefix(ns, course@, k) by {
        if 0 <= k < ns.len() {
            assert(!starts_with(course@, ns[k]));
        }
    }
    None
}

fn starts_at_zero(s: &Vec<char>, p: &Vec<char>) -> (b: bool)
    requires
        p.len() <= s.len(),
    ensures
        b == starts_with(s@, p@),
{
    let mut k: usize = 0;
    while k < p.len()
        invariant
            p.len() <= s.len(),
            k <= p.len(),
            s@.subrange(0, k as int) == p@.subrange(0, k as int),
        decreases p.len() - k,
    {
        if s[k] != p[k] {
            assert(s@.subrange(0, p.len() as int)[k as int] != p@[k as int]);
            return false;
        }
        assert(s@.subrange(0, k + 1) =~= p@.subrange(0, k + 1));
        k = k + 1;
    }
    assert(p@.subrange(0, p.len() as int) =~= p@);
    true
}

fn group_text(caps: &Vec<Option<String>>, i: usize) -> (t: String)
    ensures
        t@ == text_or_empty(group(caps.deep_view(), i as int)),
{
    if i < caps.len() {
        match &caps[i] {
            Some(s) => s.clone(),
            None => String::new(),
        }
    } else {
        String::new()
    }
}

fn odd_even_of(mark: &String) -> (code: usize)
    ensures
        code == odd_even_code(mark@),
{
    let cs = chars_of(mark.as_str());
    if cs.len() == 1 && cs[0] == '\u{5355}' {
        assert(cs@ =~= seq!['\u{5355}']);
        1
    } else if cs.len() == 1 && cs[0] == '\u{53cc}' {
        assert(cs@ =~= seq!['\u{53cc}']);
        2
    } else {
        assert(cs@ != seq!['\u{5355}'] && cs@ != seq!['\u{53cc}']) by {
            if cs.len() == 1 {
                assert(cs@[0] == seq!['\u{5355}'][0] ==> cs@[0] == '\u{5355}');
            }
        }
        3
    }
}

fn class_from_match(
    classname: String,
    caps: &Vec<Option<String>>,
    day: usize,
    time: usize,
) -> (c: ClassInfo)
    requires
        day < 7,
        time < usize::MAX,
    ensures
        c@ == class_from_captures(classname@, caps.deep_view(), day as nat, time as nat),
{
    let mark = group_text(caps, 2);
    let weeks_text = group_text(caps, 3);
    let room = group_text(caps, 1);
    let weeks = split_nonempty(&chars_of(weeks_text.as_str()), ',');
    let mut periods: Vec<usize> = Vec::new();
    periods.push(time + 1);
    let c = ClassInfo::new(classname, odd_even_of(&mark), day + 1, weeks, periods, room);
    assert(c@.classtime =~= seq![(time + 1) as usize]);
    c
}

/// Reads the entries of one cell into `keys`/`infos`.
fn read_cell(
    keys: &mut Vec<String>,
    infos: &mut Vec<ClassInfo>,
    names: &Vec<String>,
    cell: &String,
    day: usize,
    time: usize,
) -> (r: Result<(), TableError>)
    requires
        old(keys).len() == old(infos).len(),
        keys_unique(entries_of(old(keys)@, old(infos)@)),
        day < 7,
        time < usize::MAX,
    ensures
        final(keys).len() == final(infos).len(),
        keys_unique(entries_of(final(keys)@, final(infos)@)),
        match r {
            Ok(()) => read_entries(
                entries_of(old(keys)@, old(infos)@),
                names.deep_view(),
                nonempty_pieces(cell@, '/'),
                day as nat,
                time as nat,
            ) == Ok::<Seq<Entry>, TableError>(entries_of(final(keys)@, final(infos)@)),
            Err(e) => read_entries(
                entries_of(old(keys)@, old(infos)@),
                names.deep_view(),
                nonempty_pieces(cell@, '/'),
                day as nat,
                time as nat,
            ) == Err::<Seq<Entry>, TableError>(e),
        },
{
    let ghost ns = names.deep_view();
    let ghost start = read_entries(
        entries_of(keys@, infos@),
        ns,
        nonempty_pieces(cell@, '/'),
        day as nat,
        time as nat,
    );
    let cs = chars_of(cell.as_str());
    let mut target = split_nonempty(&cs, '/');
    let tlen = target.len();
    let nbsp = String::from_str("&nbsp;");
    let mut i: usize = 0;
    assert(target.deep_view().skip(0) =~= target.deep_view());
    while i < tlen
        invariant
            i <= tlen,
            target.len() == tlen,
            keys.len() == infos.len(),
            keys_unique(entries_of(keys@, infos@)),
            day < 7,
            time < usize::MAX,
            ns == names.deep_view(),
            nbsp@ == empty_cell(),
            start == read_entries(
                entries_of(old(keys)@, old(infos)@),
                ns,
                nonempty_pieces(cell@, '/'),
                day as nat,
                time as nat,
            ),
            start == read_entries(
                entries_of(keys@, infos@),
                ns,
                target.deep_view().skip(i as int),
                day as nat,
                time as nat,
            ),
        decreases tlen - i,
    {
        let ghost es = entries_of(keys@, infos@);
        let ghost pieces = target.deep_view().skip(i as int);
        let ghost rest = target.deep_view().skip(i + 1);
        assert(pieces.drop_first() =~= rest);
        let course = target[i].clone();
        assert(pieces[0] == course@);
        if course == nbsp {
            i = i + 1;
            continue;
        }
        let mut key_text = course.clone();
        push_decimal(&mut key_text, day);
        let id = uuid_v3_dns(key_text.as_str());
        assert(id@ == entry_key(course@, day as nat));
        let found = find_key(keys, infos, &id);
        if found.is_none() || time == 0 {
            let course_chars = chars_of(course.as_str());
            match first_prefix_index(names, &course_chars) {
                None => {
                    if i + 1 < tlen {
                        let mut joined = course.clone();
                        push_char(&mut joined, '/');
                        joined.append(target[i + 1].as_str());
                        let ghost joined_view = joined@;
                        let ghost before_set = target.deep_view();
                        assert(joined_view =~= course@ + seq!['/'] + rest[0]);
                        target.set(i + 1, joined);
                        assert(target.deep_view() =~= before_set.update(i + 1, joined_view));
                        assert(target.deep_view().skip(i + 1) =~= rest.update(
                            0,
                            course@ + seq!['/'] + rest[0],
                        ));
                        i = i + 1;
                        continue;
                    } else {
                        assert(rest.len() == 0);
                        return Err(TableError::UnknownCourse);
                    }
                },
                Some(k) => {
                    let classname = names[k].clone();
                    let name_chars = chars_of(classname.as_str());
                    let details = string_of(
                        &trimmed(&remove_occurrences(&course_chars, &name_chars)),
                    );
                    assert(details@ == course_details(course@, classname@));
                    let pattern = match Pattern::compile(
                        "(\\w+)? *([\u{5355}\u{53cc}]?) *((\\d+-\\d+,?)+)",
                    ) {
                        Some(p) => p,
                        None => {
                            return Err(TableError::BadPattern);
                        },
                    };
                    let caps = match pattern.captures(details.as_str()) {
                        Some(c) => c,
                        None => {
                            return Err(TableError::MalformedCourse);
                        },
                    };
                    let info = class_from_match(classname, &caps, day, time);
                    let ghost new_es = upsert(es, id@, info@);
                    match found {
                        Some(j) => {
                            infos.set(j, info);
                            assert(entries_of(keys@, infos@) =~= new_es);
                        },
                        None => {
                            keys.push(id);
                            infos.push(info);
                            assert(entries_of(keys@, infos@) =~= new_es);
                        },
                    }
                    assert(keys_unique(entries_of(keys@, infos@)));
                },
            }
        } else {
            let j = found.unwrap();
            let mut info = infos.remove(j);
            info.add_classtime(time + 1);
            infos.insert(j, info);
            assert(entries_of(keys@, infos@) =~= add_period(es, id@, (time + 1) as usize));
        }
        i = i + 1;
    }
    assert(target.deep_view().skip(tlen as int) =~= Seq::<Seq<char>>::empty());
    Ok(())
}

/// Reads the course records of a class table with course list `names` and
/// grid `rows` (one row per period, seven cells per row, Monday first).
pub fn class_table(names: &Vec<String>, rows: &Vec<Vec<String>>) -> (r: Result<
    Vec<ClassInfo>,
    TableError,
>)
    ensures
        match (r, class_table_spec(names.deep_view(), rows.deep_view())) {
            (Ok(v), Ok(cs)) => v@.map_values(|c: ClassInfo| c@) == cs,
            (Err(e), Err(e2)) => e == e2,
            _ => false,
        },
{
    let ghost ns = names.deep_view();
    let ghost grid = rows.deep_view();
    let n = rows.len();
    let mut r: usize = 0;
    while r < n
        invariant
            r <= n,
            n == rows.len(),
            grid == rows.deep_view(),
            forall|q: int| 0 <= q < r ==> #[trigger] grid[q].len() >= 7,
        decreases n - r,
    {
        if rows[r].len() < 7 {
            assert(grid[r as int].len() < 7);
            return Err(TableError::ShortRow);
        }
        r = r + 1;
    }
    let mut keys: Vec<String> = Vec::new();
    let mut infos: Vec<ClassInfo> = Vec::new();
    assert(entries_of(keys@, infos@) =~= Seq::<Entry>::empty());
    let mut day: usize = 0;
    while day < 7
        invariant
            day <= 7,
            n == rows.len(),
            grid == rows.deep_view(),
            ns == names.deep_view(),
            forall|q: int| 0 <= q < n ==> #[trigger] grid[q].len() >= 7,
            keys.len() == infos.len(),
            keys_unique(entries_of(keys@, infos@)),
            read_cells(ns, grid, day as nat, 0) == Ok::<Seq<Entry>, TableError>(
                entries_of(keys@, infos@),
            ),
        decreases 7 - day,
    {
        let mut time: usize = 0;
        while time < n
            invariant
                day < 7,
                time <= n,
                n == rows.len(),
                grid == rows.deep_view(),
                ns == names.deep_view(),
                forall|q: int| 0 <= q < n ==> #[trigger] grid[q].len() >= 7,
                keys.len() == infos.len(),
                keys_unique(entries_of(keys@, infos@)),
                read_cells(ns, grid, day as nat, time as nat) == Ok::<Seq<Entry>, TableError>(
                    entries_of(keys@, infos@),
                ),
            decreases n - time,
        {
            assert(grid[time as int].len() >= 7);
            assert(grid[time as int][day as int] == rows[time as int][day as int]@);
            let ghost before = entries_of(keys@, infos@);
            match read_cell(&mut keys, &mut infos, names, &rows[time][day], day, time) {
                Err(e) => {
                    assert(read_cells(ns, grid, day as nat, (time + 1) as nat) == Err::<
                        Seq<Entry>,
                        TableError,
                    >(e));
                    proof {
                        lemma_error_persists(ns, grid, day as nat, (time + 1) as nat, 7, 0);
                    }
                    assert(!exists|q: int| 0 <= q < grid.len() && #[trigger] grid[q].len() < 7);
                    return Err(e);
                },
                Ok(()) => {},
            }
            time = time + 1;
        }
        day = day + 1;
    }
    let ghost es = entries_of(keys@, infos@);
    assert(infos@.map_values(|c: ClassInfo| c@) =~= es.map_values(|e: Entry| e.1));
    Ok(infos)
}

} // verus!
