use hayday_items::extract::{
    extract_level, extract_price, extract_source, extract_time, extract_time_checked,
    extract_title, first_group, minutes_from_captures, number_from_captures,
};
use hayday_items::numeric::{parse_i32, parse_u32};

#[test]
fn wikiToJSON_test_title() {
    assert_eq!(
        extract_title(r#"<a href="/wiki/Wheat" title="Wheat">Wheat</a>"#).unwrap(),
        "Wheat"
    );
}

#[test]
fn wikiToJSON_test_title_error() {
    assert!(extract_title(r#"<a href="/wiki/Wheat" title>Wheat</a>"#).is_none());
}

#[test]
fn wikiToJSON_test_level() {
    assert_eq!(extract_level(r#"<td>3"#).unwrap_or(1), 3);
}

#[test]
fn wikiToJSON_test_price() {
    assert_eq!(extract_price(r#"<td>3"#).unwrap_or(1), 3);
}

#[test]
fn test_time() {
    assert_eq!(
        extract_time(r#"<td>1 d 20 h 24 min<br />3"#).unwrap_or(1),
        2664
    );
}

#[test]
fn test_time2() {
    assert_eq!(
        extract_time(r#"<td>3 h<br />★★★ 2 h 33 min"#).unwrap_or(1),
        180
    );
}

#[test]
fn test_time3() {
    assert_eq!(extract_time(r#"<td>3 h"#).unwrap_or(1), 180);
}

#[test]
fn main_test_title() {
    assert_eq!(extract_title(r#"<a href="/wiki/Wheat" title="Wheat">Wheat</a>"#).unwrap(), "Wheat");
}

#[test]
fn main_test_title_error() {
    assert!(extract_title(r#"<a href="/wiki/Wheat" title>Wheat</a>"#).is_none());
}

#[test]
fn main_test_level() {
    assert_eq!(extract_level(r#"<td>3"#).unwrap_or(1), 3);
}

#[test]
fn main_test_price() {
    assert_eq!(extract_price(r#"<td>3"#).unwrap_or(1), 3);
}

#[test]
fn title_skips_empty_quotes() {
    assert_eq!(extract_title(r#"title=""title="Egg""#).unwrap(), "Egg");
    assert!(extract_title(r#"title="""#).is_none());
    assert!(extract_title("no attribute here").is_none());
}

#[test]
fn title_takes_first_of_two() {
    assert_eq!(
        extract_title(r#"<a title="Bread">x</a><a title="Wheat">y</a>"#).unwrap(),
        "Bread"
    );
}

#[test]
fn source_reads_as_title() {
    assert_eq!(
        extract_source(r#"<a href="/wiki/Bakery" title="Bakery">Bakery</a>"#).unwrap(),
        "Bakery"
    );
    assert!(extract_source("<td>").is_none());
}

#[test]
fn level_edge_cases() {
    assert_eq!(extract_level("<td>007"), Some(7));
    assert_eq!(extract_level("<td>4294967295"), Some(u32::MAX));
    assert_eq!(extract_level("<td>4294967296"), None);
    assert_eq!(extract_level("<td>x</td><td>12"), Some(12));
    assert_eq!(extract_level("<td>+5"), None);
    assert_eq!(extract_level("12"), None);
}

#[test]
fn price_is_level() {
    for line in ["<td>3", "<td>", "<td>120 coins", "nothing", "<td>99999999999"] {
        assert_eq!(extract_price(line), extract_level(line));
    }
}

#[test]
fn time_parts() {
    assert_eq!(extract_time("<td>2 d"), Some(2880));
    assert_eq!(extract_time("<td>45 min"), Some(45));
    assert_eq!(extract_time("<td>1 h 5 min"), Some(65));
    assert_eq!(extract_time("<td>"), Some(0));
    assert_eq!(extract_time("<td>soon"), Some(0));
    assert_eq!(extract_time("no cell"), None);
}

#[test]
fn time_checked_overflow() {
    assert_eq!(extract_time_checked("<td>4294967295 d"), None);
    assert_eq!(extract_time_checked("<td>2982616 d"), Some(Some(2982616 * 1440)));
    assert_eq!(extract_time_checked("<td>2982617 d"), None);
    assert_eq!(extract_time_checked("<td>3 h"), Some(Some(180)));
    assert_eq!(extract_time_checked("none"), Some(None));
}

fn groups(v: &[Option<&str>]) -> Option<Vec<Option<String>>> {
    Some(v.iter().map(|g| g.map(|s| s.to_string())).collect())
}

#[test]
fn first_group_cases() {
    assert_eq!(first_group(groups(&[Some("title=\"A\""), Some("A")])), Some("A".to_string()));
    assert_eq!(first_group(groups(&[Some("x"), None])), None);
    assert_eq!(first_group(groups(&[Some("x")])), None);
    assert_eq!(first_group(None), None);
}

#[test]
fn number_from_captures_cases() {
    assert_eq!(number_from_captures(groups(&[Some("<td>42"), Some("42")])), Some(42));
    assert_eq!(number_from_captures(groups(&[Some("<td>٣"), Some("٣")])), None);
    assert_eq!(number_from_captures(None), None);
}

#[test]
fn minutes_from_captures_cases() {
    assert_eq!(
        minutes_from_captures(groups(&[Some("all"), Some("1"), Some("2"), Some("3")])),
        Some(1440 + 120 + 3)
    );
    assert_eq!(
        minutes_from_captures(groups(&[Some("all"), None, Some("x"), Some("7")])),
        Some(7)
    );
    assert_eq!(minutes_from_captures(groups(&[Some("<td>")])), Some(0));
    assert_eq!(minutes_from_captures(None), None);
}

#[test]
fn parse_u32_cases() {
    assert_eq!(parse_u32("0"), Some(0));
    assert_eq!(parse_u32("+17"), Some(17));
    assert_eq!(parse_u32("4294967295"), Some(u32::MAX));
    assert_eq!(parse_u32("4294967296"), None);
    assert_eq!(parse_u32(""), None);
    assert_eq!(parse_u32("+"), None);
    assert_eq!(parse_u32("-1"), None);
    assert_eq!(parse_u32(" 1"), None);
    assert_eq!(parse_u32("1a"), None);
    for s in ["0", "+17", "4294967296", "", "+", "-1", "00012", "٣"] {
        assert_eq!(parse_u32(s), s.parse::<u32>().ok());
    }
}

#[test]
fn parse_i32_cases() {
    assert_eq!(parse_i32("-2147483648"), Some(i32::MIN));
    assert_eq!(parse_i32("2147483647"), Some(i32::MAX));
    assert_eq!(parse_i32("2147483648"), None);
    assert_eq!(parse_i32("-2147483649"), None);
    assert_eq!(parse_i32("-"), None);
    assert_eq!(parse_i32("+-1"), None);
    assert_eq!(parse_i32("-0"), Some(0));
    for s in ["-2147483648", "2147483648", "-", "+5", "-0", "12x", ""] {
        assert_eq!(parse_i32(s), s.parse::<i32>().ok());
    }
}
