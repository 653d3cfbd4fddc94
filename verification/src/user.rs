//! What the client reads from the teaching system's pages: the class table,
//! the login form and the link that completes the sign-in.
use vstd::prelude::*;
use crate::page::{
    doc_step, document_matches, element_attr, element_inner_html, element_matches,
    selector_parses, step, Css, Document, Element, NodePath,
};
use crate::text::nonempty_pieces;
use crate::timetable::{
    cell_pieces, class_table, class_table_spec, empty_cell, grid_names_distinct, has_course, has_record_at,
    law_table_cells_covered, TableError,
};
use crate::typeddata::{ClassInfo, ClassView};

verus! {

/// Why the class list cannot be read from a page.
#[derive(Debug, PartialEq, Eq, Structural)]
pub enum ClassListError {
    /// The page is empty: the system is closed or unreachable.
    EmptyPage,
    /// A selector of the page layout is not accepted by the HTML engine.
    BadSelector,
    /// The course list or the class grid is missing from the page.
    MissingTable,
    /// The class grid cannot be read.
    Table(TableError),
}

/// Why the sign-in pages cannot be used.
#[derive(Debug, PartialEq, Eq, Structural)]
pub enum LoginError {
    /// A selector of the page layout is not accepted by the HTML engine.
    BadSelector,
    /// A hidden form field lacks its `name` or `value`, or the link its `href`.
    MissingAttribute,
    /// The service page has fewer than two links.
    MissingLink,
}

pub open spec fn names_table_selector() -> Seq<char> {
    "table[id=\"GVxkall\"]"@
}

pub open spec fn grid_table_selector() -> Seq<char> {
    "table[id=\"GVxkkb\"]"@
}

pub open spec fn name_cell_selector() -> Seq<char> {
    "tr[class=\"dg1-item\"] > td[style=\"width:20%;\"]"@
}

pub open spec fn grid_row_selector() -> Seq<char> {
    "tr[class=\"dg1-item\"]"@
}

pub open spec fn grid_cell_selector() -> Seq<char> {
    "td[style=\"width:12%;\"]"@
}

pub open spec fn hidden_input_selector() -> Seq<char> {
    "input[type=\"hidden\"]"@
}

pub open spec fn link_selector() -> Seq<char> {
    "a[href]"@
}

/// The course names: the inner HTML of each name cell of the first course-list table.
pub open spec fn page_names(source: Seq<char>) -> Seq<Seq<char>> {
    let t = doc_step(source, names_table_selector(), 0);
    Seq::new(
        element_matches(t, name_cell_selector()),
        |i: int| element_inner_html(step(t, name_cell_selector(), i as nat)),
    )
}

/// The cells of one row of the grid.
pub open spec fn row_cells(row: NodePath) -> Seq<Seq<char>> {
    Seq::new(
        element_matches(row, grid_cell_selector()),
        |j: int| element_inner_html(step(row, grid_cell_selector(), j as nat)),
    )
}

/// The class grid: for each row of the first grid table, its cells.
pub open spec fn page_grid(source: Seq<char>) -> Seq<Seq<Seq<char>>> {
    let t = doc_step(source, grid_table_selector(), 0);
    Seq::new(
        element_matches(t, grid_row_selector()),
        |r: int| row_cells(step(t, grid_row_selector(), r as nat)),
    )
}

pub open spec fn class_selectors_parse() -> bool {
    &&& selector_parses(names_table_selector())
    &&& selector_parses(grid_table_selector())
    &&& selector_parses(name_cell_selector())
    &&& selector_parses(grid_row_selector())
    &&& selector_parses(grid_cell_selector())
}

/// The class list that a class-table page holds.
pub open spec fn class_list_spec(source: Seq<char>) -> Result<Seq<ClassView>, ClassListError> {
    if source.len() == 0 {
        Err(ClassListError::EmptyPage)
    } else if !class_selectors_parse() {
        Err(ClassListError::BadSelector)
    } else if document_matches(source, names_table_selector()) == 0 || document_matches(
        source,
        grid_table_selector(),
    ) == 0 {
        Err(ClassListError::MissingTable)
    } else {
        match class_table_spec(page_names(source), page_grid(source)) {
            Ok(cs) => Ok(cs),
            Err(e) => Err(ClassListError::Table(e)),
        }
    }
}

/// The grid read from a page lists the `dg1-item` rows of the first grid
/// table in the order the HTML engine yields them, and in each row its
/// `width:12%` cells in order: cell `j` of row `r` is the inner HTML of the
/// `j`-th cell of the `r`-th row.
pub proof fn law_page_grid_rows(source: Seq<char>)
    ensures
        page_grid(source).len() == element_matches(
            doc_step(source, grid_table_selector(), 0),
            grid_row_selector(),
        ),
        forall|r: int|
            0 <= r < page_grid(source).len() ==> (#[trigger] page_grid(source)[r]).len()
                == element_matches(
                step(doc_step(source, grid_table_selector(), 0), grid_row_selector(), r as nat),
                grid_cell_selector(),
            ),
        forall|r: int, j: int|
            0 <= r < page_grid(source).len() && 0 <= j < page_grid(source)[r].len()
                ==> #[trigger] page_grid(source)[r][j] == element_inner_html(
                step(
                    step(doc_step(source, grid_table_selector(), 0), grid_row_selector(), r as nat),
                    grid_cell_selector(),
                    j as nat,
                ),
            ),
{
}

/// A course entry in cell `d` (Monday being 0) of the `r`-th row of the
/// class grid on a page is read as a course meeting on day `d + 1` in
/// period `r + 1`: the first row of the grid is the first period. This
/// holds provided the name-based UUIDs of the texts the grid is read by do
/// not collide.
pub proof fn law_page_courses_in_their_period(source: Seq<char>)
    requires
        grid_names_distinct(page_grid(source)),
    ensures
        class_list_spec(source) matches Ok(cs) ==> forall|r: int, d: int|
            0 <= r < element_matches(doc_step(source, grid_table_selector(), 0), grid_row_selector())
                && 0 <= d < 7 && (exists|j: int|
                0 <= j < nonempty_pieces(
                    element_inner_html(
                        step(
                            step(
                                doc_step(source, grid_table_selector(), 0),
                                grid_row_selector(),
                                r as nat,
                            ),
                            grid_cell_selector(),
                            d as nat,
                        ),
                    ),
                    '/',
                ).len() && #[trigger] nonempty_pieces(
                    element_inner_html(
                        step(
                            step(
                                doc_step(source, grid_table_selector(), 0),
                                grid_row_selector(),
                                r as nat,
                            ),
                            grid_cell_selector(),
                            d as nat,
                        ),
                    ),
                    '/',
                )[j] != empty_cell()) ==> #[trigger] has_record_at(cs, d, r),
{
    if let Ok(cs) = class_list_spec(source) {
        let names = page_names(source);
        let grid = page_grid(source);
        law_page_grid_rows(source);
        law_table_cells_covered(names, grid);
        assert(class_table_spec(names, grid) == Ok::<Seq<ClassView>, TableError>(cs));
        let tb = doc_step(source, grid_table_selector(), 0);
        assert forall|r: int, d: int|
            0 <= r < element_matches(tb, grid_row_selector()) && 0 <= d < 7 && (exists|j: int|
                0 <= j < nonempty_pieces(
                    element_inner_html(step(step(tb, grid_row_selector(), r as nat), grid_cell_selector(), d as nat)),
                    '/',
                ).len() && #[trigger] nonempty_pieces(
                    element_inner_html(step(step(tb, grid_row_selector(), r as nat), grid_cell_selector(), d as nat)),
                    '/',
                )[j] != empty_cell()) implies #[trigger] has_record_at(cs, d, r) by {
            assert(grid[r].len() >= 7) by {
                if grid[r].len() < 7 {
                    assert(class_table_spec(names, grid) is Err);
                }
            }
            assert(grid[r][d] == element_inner_html(
                step(step(tb, grid_row_selector(), r as nat), grid_cell_selector(), d as nat),
            ));
            let j = choose|j: int|
                0 <= j < nonempty_pieces(
                    element_inner_html(step(step(tb, grid_row_selector(), r as nat), grid_cell_selector(), d as nat)),
                    '/',
                ).len() && #[trigger] nonempty_pieces(
                    element_inner_html(step(step(tb, grid_row_selector(), r as nat), grid_cell_selector(), d as nat)),
                    '/',
                )[j] != empty_cell();
            assert(cell_pieces(grid, r, d)[j] != empty_cell());
            assert(has_course(grid, r, d));
        }
    }
}

fn parse_selector(text: &str) -> (r: Result<Css, ClassListError>)
    ensures
        r is Ok <==> selector_parses(text@),
        r matches Ok(c) ==> c@ == text@,
        r matches Err(e) ==> e == ClassListError::BadSelector,
{
    match Css::parse(text) {
        Some(c) => Ok(c),
        None => Err(ClassListError::BadSelector),
    }
}

/// The inner HTML of each element.
fn inner_htmls(elems: &Vec<Element>) -> (r: Vec<String>)
    ensures
        r.len() == elems.len(),
        forall|i: int| 0 <= i < r.len() ==> (#[trigger] r[i])@ == element_inner_html(elems[i]@),
{
    let mut r: Vec<String> = Vec::new();
    let mut i: usize = 0;
    while i < elems.len()
        invariant
            i <= elems.len(),
            r.len() == i,
            forall|k: int| 0 <= k < i ==> (#[trigger] r[k])@ == element_inner_html(elems[k]@),
        decreases elems.len() - i,
    {
        r.push(elems[i].inner_html());
        i = i + 1;
    }
    r
}

fn read_class_list(text: &str) -> (r: Result<Vec<ClassInfo>, ClassListError>)
    ensures
        match (r, class_list_spec(text@)) {
            (Ok(v), Ok(cs)) => v@.map_values(|c: ClassInfo| c@) == cs,
            (Err(e), Err(e2)) => e == e2,
            _ => false,
        },
{
    if text.is_empty() {
        return Err(ClassListError::EmptyPage);
    }
    let doc = Document::parse(text);
    let up_table = parse_selector("table[id=\"GVxkall\"]")?;
    let dn_table = parse_selector("table[id=\"GVxkkb\"]")?;
    let up_item = parse_selector("tr[class=\"dg1-item\"] > td[style=\"width:20%;\"]")?;
    let dn_row = parse_selector("tr[class=\"dg1-item\"]")?;
    let dn_item = parse_selector("td[style=\"width:12%;\"]")?;
    let ups = doc.select(&up_table);
    if ups.len() == 0 {
        return Err(ClassListError::MissingTable);
    }
    let name_cells = ups[0].select(&up_item);
    let names = inner_htmls(&name_cells);
    let dns = doc.select(&dn_table);
    if dns.len() == 0 {
        return Err(ClassListError::MissingTable);
    }
    let rows_elems = dns[0].select(&dn_row);
    let mut rows: Vec<Vec<String>> = Vec::new();
    let mut i: usize = 0;
    let ghost t = doc_step(text@, grid_table_selector(), 0);
    assert(dns[0]@ == t);
    while i < rows_elems.len()
        invariant
            i <= rows_elems.len(),
            dn_item@ == grid_cell_selector(),
            rows.len() == i,
            forall|k: int|
                0 <= k < i ==> (#[trigger] rows[k]).deep_view() == row_cells(rows_elems[k]@),
        decreases rows_elems.len() - i,
    {
        let cells = rows_elems[i].select(&dn_item);
        let row = inner_htmls(&cells);
        assert(row.deep_view() =~= row_cells(rows_elems[i as int]@));
        rows.push(row);
        i = i + 1;
    }
    assert(names.deep_view() =~= page_names(text@));
    assert(rows.deep_view() =~= page_grid(text@));
    match class_table(&names, &rows) {
        Ok(v) => Ok(v),
        Err(e) => Err(ClassListError::Table(e)),
    }
}

/// Reads the class list from the text of a class-table page that holds one.
pub fn classlist_from_page(text: &str) -> (v: Vec<ClassInfo>)
    requires
        class_list_spec(text@) is Ok,
    ensures
        v@.map_values(|c: ClassInfo| c@) == class_list_spec(text@)->Ok_0,
{
    match read_class_list(text) {
        Ok(v) => v,
        Err(_) => vstd::pervasive::unreached(),
    }
}

/// The class list of a class-table page, or why the page holds none.
pub fn checked_classlist_from_page(text: &str) -> (r: Result<Vec<ClassInfo>, ClassListError>)
    ensures
        match (r, class_list_spec(text@)) {
            (Ok(v), Ok(cs)) => v@.map_values(|c: ClassInfo| c@) == cs,
            (Err(e), Err(e2)) => e == e2,
            _ => false,
        },
{
    match read_class_list(text) {
        Err(e) => Err(e),
        Ok(_) => Ok(classlist_from_page(text)),
    }
}

/// Stores `v` under the field name `k` of a form, replacing what was there.
pub open spec fn form_set(form: Seq<(Seq<char>, Seq<char>)>, k: Seq<char>, v: Seq<char>) -> Seq<
    (Seq<char>, Seq<char>),
> {
    if form_has(form, k) {
        form.update(form_pos(form, k), (k, v))
    } else {
        form.push((k, v))
    }
}

pub open spec fn form_has(form: Seq<(Seq<char>, Seq<char>)>, k: Seq<char>) -> bool {
    exists|i: int| 0 <= i < form.len() && #[trigger] form[i].0 == k
}

pub open spec fn form_pos(form: Seq<(Seq<char>, Seq<char>)>, k: Seq<char>) -> int {
    choose|i: int| 0 <= i < form.len() && #[trigger] form[i].0 == k
}

pub open spec fn form_keys_unique(form: Seq<(Seq<char>, Seq<char>)>) -> bool {
    forall|i: int, j: int|
        0 <= i < form.len() && 0 <= j < form.len() && #[trigger] form[i].0 == #[trigger] form[j].0
            ==> i == j
}

/// The hidden inputs of the login page: each as its `name` and `value`
/// attributes, in the order `scraper::Html::select` yields them.
pub open spec fn hidden_field(source: Seq<char>, i: nat) -> (Option<Seq<char>>, Option<Seq<char>>) {
    let e = doc_step(source, hidden_input_selector(), i);
    (element_attr(e, "name"@), element_attr(e, "value"@))
}

/// The form after storing the first `n` hidden inputs of the login page.
pub open spec fn hidden_form(source: Seq<char>, n: nat) -> Option<Seq<(Seq<char>, Seq<char>)>>
    decreases n,
{
    if n == 0 {
        Some(seq![])
    } else {
        match hidden_form(source, (n - 1) as nat) {
            None => None,
            Some(f) => match hidden_field(source, (n - 1) as nat) {
                (Some(k), Some(v)) => Some(form_set(f, k, v)),
                _ => None,
            },
        }
    }
}

/// The login form: the hidden inputs of the login page, then the student
/// number, the password and `warn=true`.
pub open spec fn login_form_spec(source: Seq<char>, stuid: Seq<char>, pwd: Seq<char>) -> Result<
    Seq<(Seq<char>, Seq<char>)>,
    LoginError,
> {
    if !selector_parses(hidden_input_selector()) {
        Err(LoginError::BadSelector)
    } else {
        match hidden_form(source, document_matches(source, hidden_input_selector())) {
            None => Err(LoginError::MissingAttribute),
            Some(f) => Ok(
                form_set(form_set(form_set(f, "username"@, stuid), "password"@, pwd), "warn"@, "true"@),
            ),
        }
    }
}

pub open spec fn form_view(form: Seq<(String, String)>) -> Seq<(Seq<char>, Seq<char>)> {
    form.map_values(|e: (String, String)| (e.0@, e.1@))
}

/// Stores `value` under `key`, replacing what was there.
fn form_put(form: &mut Vec<(String, String)>, key: String, value: String)
    requires
        form_keys_unique(form_view(old(form)@)),
    ensures
        form_keys_unique(form_view(final(form)@)),
        form_view(final(form)@) == form_set(form_view(old(form)@), key@, value@),
{
    let ghost before = form_view(form@);
    let mut i: usize = 0;
    while i < form.len()
        invariant
            i <= form.len(),
            before == form_view(form@),
            before == form_view(old(form)@),
            form_keys_unique(before),
            forall|j: int| 0 <= j < i ==> before[j].0 != key@,
        decreases form.len() - i,
    {
        if form[i].0 == key {
            assert(before[i as int].0 == key@);
            assert(form_has(before, key@));
            let ghost k = form_pos(before, key@);
            assert(0 <= k < before.len() && before[k].0 == key@);
            assert(before[k].0 == before[i as int].0);
            assert(k == i as int);
            form.set(i, (key, value));
            assert(form_view(form@) =~= before.update(i as int, (key@, value@)));
            return;
        }
        i = i + 1;
    }
    assert(!form_has(before, key@));
    form.push((key, value));
    assert(form_view(form@) =~= before.push((key@, value@)));
}

fn read_login_form(page: &str, stuid: &str, pwd: &str) -> (r: Result<
    Vec<(String, String)>,
    LoginError,
>)
    ensures
        match (r, login_form_spec(page@, stuid@, pwd@)) {
            (Ok(f), Ok(g)) => form_view(f@) == g,
            (Err(e), Err(e2)) => e == e2,
            _ => false,
        },
{
    let css = match Css::parse("input[type=\"hidden\"]") {
        Some(c) => c,
        None => {
            return Err(LoginError::BadSelector);
        },
    };
    let doc = Document::parse(page);
    let inputs = doc.select(&css);
    let mut form: Vec<(String, String)> = Vec::new();
    let mut i: usize = 0;
    assert(form_view(form@) =~= Seq::<(Seq<char>, Seq<char>)>::empty());
    while i < inputs.len()
        invariant
            i <= inputs.len(),
            inputs.len() == document_matches(page@, hidden_input_selector()),
            forall|k: int|
                0 <= k < inputs.len() ==> (#[trigger] inputs[k])@ == doc_step(
                    page@,
                    hidden_input_selector(),
                    k as nat,
                ),
            form_keys_unique(form_view(form@)),
            selector_parses(hidden_input_selector()),
            hidden_form(page@, i as nat) == Some(form_view(form@)),
        decreases inputs.len() - i,
    {
        let name = inputs[i].attr("name");
        let value = inputs[i].attr("value");
        assert(inputs[i as int]@ == doc_step(page@, hidden_input_selector(), i as nat));
        match (name, value) {
            (Some(k), Some(v)) => {
                form_put(&mut form, k, v);
            },
            _ => {
                proof {
                    lemma_hidden_form_fails(page@, (i + 1) as nat, document_matches(page@, hidden_input_selector()));
                }
                return Err(LoginError::MissingAttribute);
            },
        }
        i = i + 1;
    }
    form_put(&mut form, String::from_str("username"), String::from_str(stuid));
    form_put(&mut form, String::from_str("password"), String::from_str(pwd));
    form_put(&mut form, String::from_str("warn"), String::from_str("true"));
    Ok(form)
}

/// The form to post to a login page whose hidden fields all have a name and
/// a value: those fields, then the student number `stuid`, the password
/// `pwd` and `warn=true`.
pub fn login_form(page: &str, stuid: &str, pwd: &str) -> (f: Vec<(String, String)>)
    requires
        login_form_spec(page@, stuid@, pwd@) is Ok,
    ensures
        form_view(f@) == login_form_spec(page@, stuid@, pwd@)->Ok_0,
{
    match read_login_form(page, stuid, pwd) {
        Ok(f) => f,
        Err(_) => vstd::pervasive::unreached(),
    }
}

/// The form to post to a login page, or why the page gives none.
pub fn checked_login_form(page: &str, stuid: &str, pwd: &str) -> (r: Result<
    Vec<(String, String)>,
    LoginError,
>)
    ensures
        match (r, login_form_spec(page@, stuid@, pwd@)) {
            (Ok(f), Ok(g)) => form_view(f@) == g,
            (Err(e), Err(e2)) => e == e2,
            _ => false,
        },
{
    match read_login_form(page, stuid, pwd) {
        Err(e) => Err(e),
        Ok(_) => Ok(login_form(page, stuid, pwd)),
    }
}

/// The value of field `k` of a form.
pub open spec fn form_lookup(form: Seq<(Seq<char>, Seq<char>)>, k: Seq<char>) -> Option<Seq<char>> {
    if form_has(form, k) {
        Some(form[form_pos(form, k)].1)
    } else {
        None
    }
}

proof fn lemma_form_set(form: Seq<(Seq<char>, Seq<char>)>, k: Seq<char>, v: Seq<char>)
    requires
        form_keys_unique(form),
    ensures
        form_keys_unique(form_set(form, k, v)),
        form_lookup(form_set(form, k, v), k) == Some(v),
        forall|k2: Seq<char>|
            k2 != k ==> #[trigger] form_lookup(form_set(form, k, v), k2) == form_lookup(form, k2),
{
    let f2 = form_set(form, k, v);
    if form_has(form, k) {
        let p = form_pos(form, k);
        assert(0 <= p < form.len() && form[p].0 == k);
    }
    assert(form_keys_unique(f2)) by {
        assert forall|i: int, j: int|
            0 <= i < f2.len() && 0 <= j < f2.len() && #[trigger] f2[i].0 == #[trigger] f2[j].0 implies i
            == j by {
            if form_has(form, k) {
                let p = form_pos(form, k);
                if i != p && j != p {
                    assert(form[i].0 == form[j].0);
                } else if i == p && j != p {
                    assert(form[j].0 == k);
                    assert(form[p].0 == k);
                } else if j == p && i != p {
                    assert(form[i].0 == k);
                    assert(form[p].0 == k);
                }
            } else {
                if i < form.len() && j < form.len() {
                    assert(form[i].0 == form[j].0);
                } else if i < form.len() {
                    assert(form[i].0 == k);
                } else if j < form.len() {
                    assert(form[j].0 == k);
                }
            }
        }
    }
    assert(form_has(f2, k)) by {
        if form_has(form, k) {
            let p = form_pos(form, k);
            assert(f2[p].0 == k);
        } else {
            assert(f2[form.len() as int].0 == k);
        }
    }
    let q = form_pos(f2, k);
    assert(0 <= q < f2.len() && f2[q].0 == k);
    if form_has(form, k) {
        let p = form_pos(form, k);
        assert(f2[p].0 == k);
    } else {
        assert(f2[form.len() as int].0 == k);
    }
    assert forall|k2: Seq<char>| k2 != k implies #[trigger] form_lookup(f2, k2) == form_lookup(
        form,
        k2,
    ) by {
        if form_has(form, k2) {
            let p2 = form_pos(form, k2);
            assert(0 <= p2 < form.len() && form[p2].0 == k2);
            assert(f2[p2] == form[p2]) by {
                if form_has(form, k) {
                    let p = form_pos(form, k);
                    assert(form[p].0 == k);
                }
            }
            assert(form_has(f2, k2));
            let q2 = form_pos(f2, k2);
            assert(0 <= q2 < f2.len() && f2[q2].0 == k2);
            assert(f2[q2].0 == f2[p2].0);
        }
        if form_has(f2, k2) {
            let q2 = form_pos(f2, k2);
            assert(0 <= q2 < f2.len() && f2[q2].0 == k2);
            if form_has(form, k) {
                let p = form_pos(form, k);
                assert(q2 != p);
                assert(form[q2].0 == k2);
            } else {
                assert(q2 < form.len());
                assert(form[q2].0 == k2);
            }
            assert(form_has(form, k2));
        }
    }
}

proof fn lemma_hidden_form_unique(source: Seq<char>, n: nat)
    ensures
        hidden_form(source, n) matches Some(f) ==> form_keys_unique(f),
    decreases n,
{
    if n > 0 {
        lemma_hidden_form_unique(source, (n - 1) as nat);
        if let Some(f) = hidden_form(source, (n - 1) as nat) {
            if let (Some(k), Some(v)) = hidden_field(source, (n - 1) as nat) {
                lemma_form_set(f, k, v);
            }
        }
    }
}

/// The posted login form names each field once and carries the student
/// number, the password and `warn=true`, whatever the hidden fields hold.
pub proof fn law_login_form_carries_credentials(
    source: Seq<char>,
    stuid: Seq<char>,
    pwd: Seq<char>,
)
    ensures
        login_form_spec(source, stuid, pwd) matches Ok(f) ==> {
            &&& form_keys_unique(f)
            &&& form_lookup(f, "username"@) == Some(stuid)
            &&& form_lookup(f, "password"@) == Some(pwd)
            &&& form_lookup(f, "warn"@) == Some("true"@)
        },
{
    if let Ok(_) = login_form_spec(source, stuid, pwd) {
        let f0 = hidden_form(source, document_matches(source, hidden_input_selector()))->Some_0;
        lemma_hidden_form_unique(source, document_matches(source, hidden_input_selector()));
        reveal_strlit("username");
        reveal_strlit("password");
        reveal_strlit("warn");
        let f1 = form_set(f0, "username"@, stuid);
        let f2 = form_set(f1, "password"@, pwd);
        lemma_form_set(f0, "username"@, stuid);
        lemma_form_set(f1, "password"@, pwd);
        lemma_form_set(f2, "warn"@, "true"@);
        assert("username"@[0] == 'u' && "password"@[0] == 'p');
        assert("username"@ != "password"@);
        assert("username"@.len() == 8 && "warn"@.len() == 4);
        assert("username"@ != "warn"@);
        assert("password"@ != "warn"@);
        assert(form_lookup(f2, "username"@) == Some(stuid));
    }
}

proof fn lemma_hidden_form_fails(source: Seq<char>, n: nat, m: nat)
    requires
        hidden_form(source, n) is None,
        n <= m,
    ensures
        hidden_form(source, m) is None,
    decreases m - n,
{
    if n < m {
        lemma_hidden_form_fails(source, n + 1, m);
    }
}

/// The link that completes the sign-in: the `href` of the second link of the
/// service page.
pub open spec fn service_link_spec(source: Seq<char>) -> Result<Seq<char>, LoginError> {
    if !selector_parses(link_selector()) {
        Err(LoginError::BadSelector)
    } else if document_matches(source, link_selector()) < 2 {
        Err(LoginError::MissingLink)
    } else {
        match element_attr(doc_step(source, link_selector(), 1), "href"@) {
            Some(h) => Ok(h),
            None => Err(LoginError::MissingAttribute),
        }
    }
}

fn read_service_link(page: &str) -> (r: Result<String, LoginError>)
    ensures
        match (r, service_link_spec(page@)) {
            (Ok(h), Ok(g)) => h@ == g,
            (Err(e), Err(e2)) => e == e2,
            _ => false,
        },
{
    let css = match Css::parse("a[href]") {
        Some(c) => c,
        None => {
            return Err(LoginError::BadSelector);
        },
    };
    let doc = Document::parse(page);
    let links = doc.select(&css);
    if links.len() < 2 {
        return Err(LoginError::MissingLink);
    }
    match links[1].attr("href") {
        Some(h) => Ok(h),
        None => Err(LoginError::MissingAttribute),
    }
}

/// The `href` of the second link on a service page that has one.
pub fn service_link(page: &str) -> (h: String)
    requires
        service_link_spec(page@) is Ok,
    ensures
        h@ == service_link_spec(page@)->Ok_0,
{
    match read_service_link(page) {
        Ok(h) => h,
        Err(_) => vstd::pervasive::unreached(),
    }
}

/// The `href` of the second link on a service page, or why there is none.
pub fn checked_service_link(page: &str) -> (r: Result<String, LoginError>)
    ensures
        match (r, service_link_spec(page@)) {
            (Ok(h), Ok(g)) => h@ == g,
            (Err(e), Err(e2)) => e == e2,
            _ => false,
        },
{
    match read_service_link(page) {
        Err(e) => Err(e),
        Ok(_) => Ok(service_link(page)),
    }
}

} // verus!
