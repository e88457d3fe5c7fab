use quote_extract::dom::find_anchor;
use quote_extract::dom::parse_dom;
use quote_extract::synth::add_candidate;
use quote_extract::synth::generate_selector_candidates;
use quote_extract::synth::synthesize_ranked;

#[test]
fn ancestor_identifier_tops_the_ranking() {
    let page = "<div id=\"x\"> <span class=\"Price__value\">1,250</span> </div>";
    let got = generate_selector_candidates(page, "1,250");
    // ancestor-identifier path (one level up), block prefix, class
    // selector, bare tag — strictly in that order of confidence
    assert_eq!(
        got,
        vec![
            "#x > span".to_string(),
            "span[class*='Price']".to_string(),
            "span.Price__value".to_string(),
            "span".to_string(),
        ],
    );
}

#[test]
fn synthesis_never_empty_and_ends_with_bare_tag() {
    let page = "<div> <p id=\"target\">zz</p> </div>";
    let got = generate_selector_candidates(page, "zz");
    assert!(!got.is_empty());
    assert_eq!(got[0], "#target");
    assert_eq!(got.last().unwrap(), "p");
}

#[test]
fn synthesis_is_deterministic() {
    let page = "<div class=\"a b\"> <span class=\"Board__cell\">77</span> </div>";
    let first = generate_selector_candidates(page, "77");
    let second = generate_selector_candidates(page, "77");
    assert_eq!(first, second);
    assert!(!first.is_empty());
}

#[test]
fn synthesis_without_occurrence_is_empty() {
    let got = generate_selector_candidates("<p>something else</p>", "missing");
    assert!(got.is_empty());
}

#[test]
fn synthesis_covers_attribute_selectors() {
    let page = "<div> <span data-field=\"regularMarketPrice\">42</span> </div>";
    let got = generate_selector_candidates(page, "42");
    assert!(got.contains(&"span[data-field='regularMarketPrice']".to_string()));
    assert_eq!(got.last().unwrap(), "span");
}

#[test]
fn selector_map_keeps_best_score() {
    let mut map: Vec<(String, u32)> = Vec::new();
    add_candidate(&mut map, "a".to_string(), 5);
    add_candidate(&mut map, "a".to_string(), 9);
    add_candidate(&mut map, "a".to_string(), 3);
    assert_eq!(map, vec![("a".to_string(), 9)]);
}

#[test]
fn selector_map_merge_is_idempotent() {
    let mut map: Vec<(String, u32)> = Vec::new();
    add_candidate(&mut map, "div.x".to_string(), 40);
    add_candidate(&mut map, "div.x".to_string(), 40);
    assert_eq!(map, vec![("div.x".to_string(), 40)]);
}

#[test]
fn ranked_scores_follow_the_brittleness_tiers() {
    let page = "<div id=\"x\"> <span class=\"Price__value\">1,250</span> </div>";
    let dom = parse_dom(page);
    let anchor = find_anchor(&dom, "1,250").expect("the span is the tightest wrapper");
    let ranked = synthesize_ranked(&dom, anchor);
    let scores: Vec<u32> = ranked.iter().map(|p| p.1).collect();
    // ancestor identifier, block prefix, class, bare tag
    assert_eq!(scores, vec![85, 60, 55, 1]);
    // an element with its own identifier tops everything
    let dom2 = parse_dom("<div> <p id=\"t\" class=\"Row__cell\">zz</p> </div>");
    let anchor2 = find_anchor(&dom2, "zz").expect("the paragraph is eligible");
    let ranked2 = synthesize_ranked(&dom2, anchor2);
    assert_eq!(ranked2[0], ("#t".to_string(), 100));
    assert_eq!(*ranked2.last().unwrap(), ("p".to_string(), 1));
}
