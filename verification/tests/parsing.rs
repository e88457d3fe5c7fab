use quote_extract::change::parse_change;
use quote_extract::scrape::format_update_time;

#[test]
fn change_with_percent() {
    let (abs, pct) = parse_change("1,234.5 (+2.3%)");
    assert_eq!(abs, "1,234.5");
    assert_eq!(pct, "+2.3%");
}

#[test]
fn change_without_parenthesis() {
    let (abs, pct) = parse_change("-10");
    assert_eq!(abs, "-10");
    assert_eq!(pct, "");
}

#[test]
fn change_empty() {
    let (abs, pct) = parse_change("");
    assert_eq!(abs, "");
    assert_eq!(pct, "");
}

#[test]
fn change_collapses_newlines() {
    let (abs, pct) = parse_change("1,234.5\n(+2.3%)");
    assert_eq!(abs, "1,234.5");
    assert_eq!(pct, "+2.3%");
}

#[test]
fn change_unclosed_parenthesis() {
    let (abs, pct) = parse_change("5 (+3%");
    assert_eq!(abs, "5");
    assert_eq!(pct, "+3%");
}

#[test]
fn change_with_label_noise() {
    let (abs, pct) = parse_change("  +12.0   ( 0.95% ) ");
    assert_eq!(abs, "+12.0");
    assert_eq!(pct, "0.95%");
}

#[test]
fn update_time_between_colon_and_bracket() {
    assert_eq!(format_update_time("更新:15:45）"), "15:45");
}

#[test]
fn update_time_without_brackets() {
    assert_eq!(format_update_time("  15:30  "), "15:30");
}

#[test]
fn update_time_bracket_before_colon() {
    assert_eq!(format_update_time("） 9:00"), "） 9:00");
}
