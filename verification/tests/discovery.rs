use quote_extract::candidates::RankedCandidate;
use quote_extract::candidates::merge_candidate;
use quote_extract::discover::FieldKind;
use quote_extract::discover::discover;
use quote_extract::discover::discover_index_data;
use quote_extract::dom::find_anchor;
use quote_extract::dom::parse_dom;
use quote_extract::extract::extract_embedded_state;

#[test]
fn anchor_is_deterministic() {
    let page = "<div><p>target text</p><span>other</span></div>";
    let dom = parse_dom(page);
    let first = find_anchor(&dom, "target text");
    let second = find_anchor(&dom, "target text");
    assert!(first.is_some());
    assert_eq!(first, second);
    let again = parse_dom(page);
    assert_eq!(find_anchor(&again, "target text"), first);
}

#[test]
fn anchor_tie_breaks_to_document_order() {
    let page = "<div><p>abc</p><p>abc</p></div>";
    let dom = parse_dom(page);
    let a = find_anchor(&dom, "abc").expect("both paragraphs are eligible");
    // the two paragraphs tie on text length; the earlier one wins
    assert_eq!(dom.nodes[a].tag, "p");
    assert_eq!(dom.nodes[a].text, "abc");
    assert!(dom.nodes[a + 1].tag == "p");
}

#[test]
fn anchor_absent_without_occurrence() {
    let dom = parse_dom("<p>nothing here</p>");
    assert_eq!(find_anchor(&dom, "absent"), None);
}

#[test]
fn candidate_merge_is_idempotent() {
    let mut list: Vec<RankedCandidate> = Vec::new();
    merge_candidate(
        &mut list,
        RankedCandidate { text: "1,250".to_string(), score: 80, reason: "first".to_string() },
    );
    merge_candidate(
        &mut list,
        RankedCandidate { text: "1,250".to_string(), score: 80, reason: "again".to_string() },
    );
    assert_eq!(list.len(), 1);
    assert_eq!(list[0].text, "1,250");
    assert_eq!(list[0].score, 80);
    assert_eq!(list[0].reason, "first");
}

#[test]
fn candidate_merge_keeps_higher_score() {
    let mut list: Vec<RankedCandidate> = Vec::new();
    merge_candidate(
        &mut list,
        RankedCandidate { text: "x".to_string(), score: 40, reason: "low".to_string() },
    );
    merge_candidate(
        &mut list,
        RankedCandidate { text: "x".to_string(), score: 90, reason: "high".to_string() },
    );
    merge_candidate(
        &mut list,
        RankedCandidate { text: "x".to_string(), score: 10, reason: "late".to_string() },
    );
    assert_eq!(list.len(), 1);
    assert_eq!(list[0].score, 90);
    assert_eq!(list[0].reason, "high");
}

#[test]
fn price_discovery_scores_structural_hints() {
    let page = "<html><body><div class='price'>1,234.5</div></body></html>";
    let dom = parse_dom(page);
    let cands = discover(&dom, FieldKind::Price);
    assert!(!cands.is_empty());
    assert_eq!(cands[0].text, "1,234.5");
    // base 50, plus 30 for the grouping comma
    assert_eq!(cands[0].score, 80);
}

#[test]
fn price_discovery_deduplicates_texts() {
    let page = "<div class='price'>500</div><div class='price'>500</div>";
    let dom = parse_dom(page);
    let cands = discover(&dom, FieldKind::Price);
    assert_eq!(cands.iter().filter(|c| c.text == "500").count(), 1);
}

#[test]
fn price_discovery_falls_back_to_plain_numbers() {
    let page = "<html><body><span>123</span><span>words</span></body></html>";
    let dom = parse_dom(page);
    let cands = discover(&dom, FieldKind::Price);
    assert_eq!(cands.len(), 1);
    assert_eq!(cands[0].text, "123");
    assert_eq!(cands[0].score, 10);
}

#[test]
fn change_discovery_requires_sign_and_shape() {
    let page = "<div class='PriceChangeLabel__primary'>+12.3</div>\
                <div class='PriceChangeLabel__primary'>no sign</div>\
                <div class='PriceChangeLabel__secondary'>(+0.9%)</div>";
    let dom = parse_dom(page);
    let abs = discover(&dom, FieldKind::ChangeAbs);
    assert_eq!(abs.len(), 1);
    assert_eq!(abs[0].text, "+12.3");
    assert_eq!(abs[0].score, 100);
    let pct = discover(&dom, FieldKind::ChangePct);
    assert_eq!(pct.len(), 1);
    assert_eq!(pct[0].text, "(+0.9%)");
}

#[test]
fn name_discovery_prefers_exact_heading() {
    let page = "<html><head><title>ソニー【6758】：株価</title></head>\
                <body><h1>ソニー</h1><h2>ソニーの最新情報</h2></body></html>";
    let dom = parse_dom(page);
    let names = discover(&dom, FieldKind::Name);
    assert!(names.len() >= 2);
    assert_eq!(names[0].text, "ソニー");
    assert_eq!(names[0].score, 110);
    assert!(names.iter().any(|c| c.text == "ソニーの最新情報" && c.score == 100));
    assert!(names.iter().any(|c| c.text == "ソニー【6758】：株価" && c.score == 50));
}

#[test]
fn name_discovery_empty_without_title() {
    let dom = parse_dom("<html><body><h1>alone</h1></body></html>");
    assert!(discover(&dom, FieldKind::Name).is_empty());
}

#[test]
fn embedded_state_missing_marker_is_empty() {
    let paths = vec![vec!["priceBoard".to_string(), "price".to_string()]];
    let got = extract_embedded_state("<html><body>no state here</body></html>", &paths);
    assert!(got.is_empty());
}

#[test]
fn embedded_state_reads_key_paths() {
    let page = "<html><script>window.__PRELOADED_STATE__ = \
                {\"priceBoard\":{\"price\":\"1,234\",\"change\":\"+10\"}};</script></html>";
    let paths = vec![
        vec!["priceBoard".to_string(), "price".to_string()],
        vec!["priceBoard".to_string(), "missing".to_string()],
        vec!["priceBoard".to_string(), "change".to_string()],
    ];
    let got = extract_embedded_state(page, &paths);
    assert_eq!(got.len(), 2);
    assert_eq!(got[0].value, "1,234");
    assert_eq!(got[0].path, vec!["priceBoard".to_string(), "price".to_string()]);
    assert_eq!(got[1].value, "+10");
}

#[test]
fn index_discovery_prefers_embedded_state() {
    let page = "<html><head><title>TEST - market</title></head><body><script>\
                window.__PRELOADED_STATE__ = {\"pageInfo\":{\"title\":\"TEST - market\"},\
                \"priceBoard\":{\"price\":\"4,500\",\"change\":\"+10\",\"changePct\":\"+0.22%\"}};\
                </script></body></html>";
    let d = discover_index_data(page, "^TEST");
    assert_eq!(d.code, "^TEST");
    assert_eq!(d.url, "https://finance.yahoo.co.jp/quote/^TEST");
    assert_eq!(d.name_candidates[0].text, "TEST");
    assert_eq!(d.name_candidates[0].score, 100);
    assert_eq!(d.price_candidates[0].text, "4,500");
    assert_eq!(d.change_abs_candidates[0].text, "+10");
    assert_eq!(d.change_pct_candidates[0].text, "+0.22%");
}

#[test]
fn index_discovery_title_fallback() {
    let page = "<html><head><title>NIKKEI - overview</title></head><body></body></html>";
    let d = discover_index_data(page, "^N225");
    assert_eq!(d.name_candidates[0].text, "NIKKEI");
    assert_eq!(d.name_candidates[0].score, 80);
}

#[test]
fn index_discovery_h1_fallback_when_title_is_useless() {
    let page = "<html><head><title>   </title></head><body><h1> TOPIX </h1></body></html>";
    let d = discover_index_data(page, "^TPX");
    assert_eq!(d.name_candidates.len(), 1);
    assert_eq!(d.name_candidates[0].text, "TOPIX");
    assert_eq!(d.name_candidates[0].score, 70);
}

#[test]
fn index_discovery_dom_fallbacks_fill_missing_fields() {
    let page = "<html><body>\
        <div class=\"_CommonPriceBoard__priceBlock\">\
        <span class=\"_StyledNumber__value\">2,650.5</span></div>\
        <span class=\"_PriceChangeLabel__primary\">\
        <span class=\"_StyledNumber__value\">+12.5</span></span>\
        <span class=\"_PriceChangeLabel__secondary\">\
        <span class=\"_StyledNumber__value\">(+0.47%)</span></span>\
        </body></html>";
    let d = discover_index_data(page, "^TPX");
    assert_eq!(d.price_candidates[0].text, "2,650.5");
    assert_eq!(d.price_candidates[0].score, 90);
    assert_eq!(d.change_abs_candidates[0].text, "+12.5");
    assert_eq!(d.change_abs_candidates[0].score, 90);
    assert_eq!(d.change_pct_candidates[0].text, "(+0.47%)");
    assert_eq!(d.change_pct_candidates[0].score, 90);
}

#[test]
fn index_discovery_broad_price_fallback() {
    // no styled-number span inside a common price block, so the
    // broader price-information scan supplies the value at low tier
    let page = "<html><body><div class=\"_BasePriceBoard__priceInformation\">\
        <div>38,100</div></div></body></html>";
    let d = discover_index_data(page, "^N225");
    assert_eq!(d.price_candidates[0].text, "38,100");
    assert_eq!(d.price_candidates[0].score, 70);
}
