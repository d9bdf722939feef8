use hayday_items::wiki::{convert_to_struct, convert_to_struct_checked, cunvert_to_struct};

fn table() -> Vec<String> {
    let lines = [
        "</th></tr>",
        "<tr>",
        r#"<td><a href="/wiki/Wheat" title="Wheat">Wheat</a>"#,
        "</td>",
        "<td>1",
        "</td>",
        "<td>3",
        "</td>",
        "<td>2 min",
        "</td>",
        "<td>",
        "</td>",
        "<td>",
        "</td>",
        r#"<td><a href="/wiki/Field" title="Field">Field</a>"#,
        "</td>",
        "</td></tr>",
        "<tr>",
        r#"<td><a href="/wiki/Bread" title="Bread">Bread</a>"#,
        "</td>",
        "<td>2",
        "</td>",
        "<td>5",
        "</td>",
        "<td>5 min",
        "</td>",
        "<td>",
        "</td>",
        r#"<a href="/wiki/Wheat" title="Wheat">3</a>"#,
        r#"<a href="/wiki/Egg" title="Egg">1</a>"#,
        "</td>",
        "<td>",
        r#"<td><a href="/wiki/Bakery" title="Bakery">Bakery</a>"#,
        "</td>",
    ];
    lines.iter().map(|s| s.to_string()).collect()
}

#[test]
fn converts_two_rows() {
    let items = convert_to_struct(table()).unwrap();
    assert_eq!(items.len(), 2);
    assert_eq!(items[0].name, "Wheat");
    assert_eq!(items[0].level, 1);
    assert_eq!(items[0].price, 3);
    assert_eq!(items[0].time, 2);
    assert!(items[0].needs.is_empty());
    assert_eq!(items[0].source, "Field");
    assert_eq!(items[1].name, "Bread");
    assert_eq!(items[1].level, 2);
    assert_eq!(items[1].price, 5);
    assert_eq!(items[1].time, 5);
    assert_eq!(items[1].needs, vec!["Wheat".to_string(), "Egg".to_string()]);
    assert_eq!(items[1].source, "Bakery");
}

#[test]
fn single_need_keeps_source_place() {
    let mut lines = table();
    lines[29] = "</td>".to_string();
    lines[30] = r#"<a title="Mill">Mill</a>"#.to_string();
    lines[32] = "<td>".to_string();
    let items = convert_to_struct(lines).unwrap();
    assert_eq!(items[1].needs, vec!["Wheat".to_string()]);
    assert_eq!(items[1].source, "Mill");
}

#[test]
fn no_rows_no_items() {
    let lines: Vec<String> = vec!["<table>".to_string(), "<tr>".to_string()];
    assert_eq!(convert_to_struct(lines.clone()).unwrap().len(), 0);
    assert_eq!(cunvert_to_struct(lines).unwrap().len(), 0);
    assert_eq!(convert_to_struct(Vec::new()).unwrap().len(), 0);
}

#[test]
fn missing_name_fails() {
    let mut lines = table();
    lines[18] = "<td>no title".to_string();
    assert!(convert_to_struct(lines.clone()).is_none());
    assert!(cunvert_to_struct(lines).is_none());
}

#[test]
fn row_at_end_fails() {
    let mut lines = table();
    lines.push("</td></tr>".to_string());
    assert!(convert_to_struct(lines.clone()).is_none());
    assert!(cunvert_to_struct(lines).is_none());
}

#[test]
fn missing_time_only_fails_convert() {
    let mut lines = table();
    lines[8] = "2 min".to_string();
    assert!(convert_to_struct(lines.clone()).is_none());
    assert_eq!(cunvert_to_struct(lines).unwrap().len(), 0);
}

#[test]
fn checked_reports_overflow() {
    let mut lines = table();
    lines[24] = "<td>4294967295 d".to_string();
    assert!(convert_to_struct_checked(lines).is_none());
    let ok = convert_to_struct_checked(table()).unwrap().unwrap();
    assert_eq!(ok.len(), 2);
}

#[test]
fn overflow_after_failing_row_is_not_reached() {
    let mut lines = table();
    lines[2] = "<td>".to_string();
    lines[24] = "<td>4294967295 d".to_string();
    assert!(convert_to_struct_checked(lines.clone()).unwrap().is_none());
    assert!(convert_to_struct(lines).is_none());
}

#[test]
fn cunvert_reads_table() {
    assert_eq!(cunvert_to_struct(table()).unwrap().len(), 0);
}

#[test]
fn reports_of_a_readable_table() {
    let reports = hayday_items::wiki::row_reports(&table());
    assert_eq!(reports.len(), 2);
    assert_eq!(reports[0].name.as_deref(), Some("Wheat"));
    assert_eq!(reports[0].level, Some(1));
    assert_eq!(reports[0].price, Some(3));
    assert_eq!(reports[0].needs, Some(vec![]));
    assert_eq!(reports[0].source.as_deref(), Some("Field"));
    assert_eq!(reports[1].name.as_deref(), Some("Bread"));
    assert_eq!(reports[1].needs, Some(vec!["Wheat".to_string(), "Egg".to_string()]));
    assert_eq!(reports[1].source.as_deref(), Some("Bakery"));
}

#[test]
fn reports_stop_at_first_missing_field() {
    let mut lines = table();
    lines[6] = "<td>free".to_string();
    let reports = hayday_items::wiki::row_reports(&lines);
    assert_eq!(reports.len(), 1);
    assert_eq!(reports[0].name.as_deref(), Some("Wheat"));
    assert_eq!(reports[0].level, Some(1));
    assert_eq!(reports[0].price, None);
    assert_eq!(reports[0].needs, None);
    assert_eq!(reports[0].source, None);
    assert!(cunvert_to_struct(lines).is_none());
}

#[test]
fn reports_skip_durations() {
    let mut lines = table();
    lines[8] = "2 min".to_string();
    let reports = hayday_items::wiki::row_reports(&lines);
    assert_eq!(reports.len(), 2);
    assert!(reports.iter().all(|r| r.source.is_some()));
}
