use quote_extract::report::verify_selector;
use quote_extract::resolve::DocKind;
use quote_extract::resolve::resolve_field;

const PAGE: &str = "<html><body>\
<p class='present'> hello world </p>\
<p class='other'>ignored</p>\
</body></html>";

#[test]
fn first_compilable_hitting_selector_wins() {
    let selectors = vec![
        "bad[".to_string(),
        ".missing".to_string(),
        ".present".to_string(),
    ];
    let got = resolve_field(PAGE, DocKind::FullPage, &selectors);
    assert_eq!(got, Some("hello world".to_string()));
}

#[test]
fn earlier_hit_shadows_later_selectors() {
    let selectors = vec![".other".to_string(), ".present".to_string()];
    let got = resolve_field(PAGE, DocKind::FullPage, &selectors);
    assert_eq!(got, Some("ignored".to_string()));
}

#[test]
fn no_selector_hits() {
    let selectors = vec!["bad[".to_string(), ".missing".to_string()];
    assert_eq!(resolve_field(PAGE, DocKind::FullPage, &selectors), None);
}

#[test]
fn empty_selector_list() {
    let selectors: Vec<String> = Vec::new();
    assert_eq!(resolve_field(PAGE, DocKind::FullPage, &selectors), None);
}

#[test]
fn fragment_resolution() {
    let selectors = vec!["span".to_string()];
    let got = resolve_field("<div><span> 42 </span></div>", DocKind::Fragment, &selectors);
    assert_eq!(got, Some("42".to_string()));
}

#[test]
fn verify_invalid_selector() {
    let r = verify_selector(PAGE, "http://example.invalid/page", "bad[");
    assert!(!r.is_valid_syntax);
    assert_eq!(r.match_count, 0);
    assert!(r.matches.is_empty());
    let msg = r.error_message.expect("an error message is owed");
    assert!(!msg.is_empty());
    assert_eq!(r.selector, "bad[");
    assert_eq!(r.url, "http://example.invalid/page");
}

#[test]
fn verify_valid_selector_without_matches() {
    let r = verify_selector(PAGE, "u", ".missing");
    assert!(r.is_valid_syntax);
    assert_eq!(r.match_count, 0);
    assert!(r.matches.is_empty());
    assert!(r.error_message.is_none());
}

#[test]
fn verify_reports_trimmed_snapshot() {
    let r = verify_selector(PAGE, "u", ".present");
    assert!(r.is_valid_syntax);
    assert_eq!(r.match_count, 1);
    assert_eq!(r.matches.len(), 1);
    assert_eq!(r.matches[0].tag, "p");
    assert_eq!(r.matches[0].text, "hello world");
    assert!(r.matches[0].html.contains("present"));
}

#[test]
fn verify_preview_is_bounded() {
    let page = "<ul><li>1</li><li>2</li><li>3</li><li>4</li><li>5</li><li>6</li><li>7</li></ul>";
    let r = verify_selector(page, "u", "li");
    assert!(r.is_valid_syntax);
    assert_eq!(r.match_count, 7);
    assert_eq!(r.matches.len(), 5);
    assert_eq!(r.matches[0].text, "1");
    assert_eq!(r.matches[4].text, "5");
}

#[test]
fn first_match_follows_document_order() {
    let page = "<div><p class='present'>first</p><p class='present'>second</p></div>";
    let selectors = vec![".present".to_string()];
    let got = resolve_field(page, DocKind::FullPage, &selectors);
    assert_eq!(got, Some("first".to_string()));
}
