use cczu_ical::timetable::TableError;
use cczu_ical::user::{
    checked_classlist_from_page, checked_login_form, checked_service_link, classlist_from_page, login_form,
    service_link, ClassListError, LoginError,
};

fn grid_row(cells: [&str; 7]) -> String {
    let mut s = String::from("<tr class=\"dg1-item\"><td>1</td>");
    for c in cells {
        s.push_str(&format!("<td style=\"width:12%;\">{}</td>", c));
    }
    s.push_str("</tr>");
    s
}

fn page(rows: &[String]) -> String {
    format!(
        "<html><body><table id=\"GVxkall\"><tr class=\"dg1-item\"><td style=\"width:20%;\">高等数学</td><td>4</td></tr>\
         <tr class=\"dg1-item\"><td style=\"width:20%;\">大学英语</td><td>2</td></tr></table>\
         <table id=\"GVxkkb\">{}</table></body></html>",
        rows.concat()
    )
}

#[test]
fn class_list_from_page() {
    let rows = vec![
        grid_row(["高等数学 立德楼409 1-16,", "&nbsp;", "&nbsp;", "大学英语 文科楼101 双 2-16,", "&nbsp;", "&nbsp;", "&nbsp;"]),
        grid_row(["高等数学 立德楼409 1-16,", "&nbsp;", "&nbsp;", "&nbsp;", "&nbsp;", "&nbsp;", "&nbsp;"]),
    ];
    let cs = classlist_from_page(&page(&rows));
    assert_eq!(cs.len(), 2);
    assert_eq!(cs[0].name, "高等数学");
    assert_eq!(cs[0].day, 1);
    assert_eq!(cs[0].classtime, vec![1, 2]);
    assert_eq!(cs[1].name, "大学英语");
    assert_eq!(cs[1].oe, 2);
    assert_eq!(cs[1].day, 4);
    assert_eq!(cs[1].week, vec!["2-16".to_string()]);
}

#[test]
fn empty_page_is_refused() {
    assert_eq!(checked_classlist_from_page("").err(), Some(ClassListError::EmptyPage));
}

#[test]
fn page_without_tables_is_refused() {
    assert_eq!(
        checked_classlist_from_page("<html><body><p>closed</p></body></html>").err(),
        Some(ClassListError::MissingTable)
    );
}

#[test]
fn table_errors_come_through() {
    let rows = vec!["<tr class=\"dg1-item\"><td style=\"width:12%;\">x</td></tr>".to_string()];
    assert_eq!(checked_classlist_from_page(&page(&rows)).err(), Some(ClassListError::Table(TableError::ShortRow)));
}

#[test]
fn login_form_carries_hidden_fields_and_credentials() {
    let page = "<form><input type=\"hidden\" name=\"lt\" value=\"LT-1\">\
                <input type=\"hidden\" name=\"execution\" value=\"e1s1\">\
                <input type=\"hidden\" name=\"username\" value=\"old\">\
                <input type=\"text\" name=\"other\" value=\"v\"></form>";
    let form = login_form(page, "2200001", "123456");
    assert_eq!(checked_login_form(page, "2200001", "123456").unwrap(), form);
    let pairs: Vec<(&str, &str)> = form.iter().map(|(k, v)| (k.as_str(), v.as_str())).collect();
    assert_eq!(
        pairs,
        vec![("lt", "LT-1"), ("execution", "e1s1"), ("username", "2200001"), ("password", "123456"), ("warn", "true")]
    );
}

#[test]
fn login_form_needs_name_and_value() {
    let page = "<input type=\"hidden\" name=\"lt\">";
    assert_eq!(checked_login_form(page, "a", "b").err(), Some(LoginError::MissingAttribute));
}

#[test]
fn login_form_of_plain_page() {
    let form = login_form("<p>hi</p>", "a", "b");
    assert_eq!(form.len(), 3);
}

#[test]
fn service_link_is_second_link() {
    let page = "<a href=\"/first\">1</a><a href=\"http://219.230.159.132/go\">2</a><a href=\"/third\">3</a>";
    assert_eq!(service_link(page), "http://219.230.159.132/go");
    assert_eq!(checked_service_link(page).unwrap(), "http://219.230.159.132/go");
}

#[test]
fn service_link_needs_two_links() {
    assert_eq!(checked_service_link("<a href=\"/only\">1</a>"), Err(LoginError::MissingLink));
}
