use quote_extract::scrape::ScrapeError;
use quote_extract::scrape::scrape_dynamically;
use quote_extract::scrape::scrape_for_code;
use quote_extract::scrape::scrape_index_data;
use quote_extract::scrape::scrape_priceboard_data;
use quote_extract::scrape::scrape_stock_page_data;

const STOCK_PAGE: &str = "<html><body><div class=\"PriceBoard__main\">\
<header><h2>テスト株式会社</h2></header>\
<span class=\"PriceBoard__code\">9999</span>\
<span class=\"PriceBoard__price\"><span class=\"StyledNumber__value\">1,250</span></span>\
<div class=\"PriceChangeLabel\">+10.5 (+0.85%)</div>\
<ul class=\"PriceBoard__times\"><time>15:00</time></ul>\
</div></body></html>";

#[test]
fn stock_page_extracts_every_field() {
    let d = scrape_stock_page_data(STOCK_PAGE).expect("the container is present");
    assert_eq!(d.name, "テスト株式会社");
    assert_eq!(d.code, "9999");
    assert_eq!(d.price, "1,250");
    assert_eq!(d.change_abs, "+10.5");
    assert_eq!(d.change_pct, "+0.85%");
    assert_eq!(d.update_time, "15:00");
}

#[test]
fn stock_page_without_container_fails() {
    let r = scrape_stock_page_data("<html><body><p>bare</p></body></html>");
    let e = r.expect_err("no container selector can hit");
    assert!(matches!(e, ScrapeError::MainContainerNotFound));
    assert_eq!(e.message(), "Main container not found");
}

#[test]
fn stock_page_missing_fields_get_sentinels() {
    let d = scrape_stock_page_data("<html><body><div class=\"BoardMain\"></div></body></html>")
        .expect("the container is present");
    assert_eq!(d.name, "UNKNOWN");
    assert_eq!(d.code, "N/A");
    assert_eq!(d.price, "N/A");
    assert_eq!(d.change_abs, "");
    assert_eq!(d.change_pct, "");
    assert_eq!(d.update_time, "N/A");
}

#[test]
fn priceboard_page_error_names_the_board() {
    let r = scrape_priceboard_data("<html><body></body></html>");
    let e = r.expect_err("no container");
    assert!(matches!(e, ScrapeError::PriceBoardContainerNotFound));
    assert_eq!(e.message(), "PriceBoard container not found");
}

#[test]
fn index_page_splits_labelled_block() {
    let page = "<html><body><h1 class=\"title\">日経平均株価の指数情報・推移</h1>\
        <div class=\"_BasePriceBoard__price\">38,000 前日比 +100 (+0.26%) リアルタイム</div>\
        <div class=\"_BasePriceBoard__time\"><time>更新:15:45）</time></div>\
        </body></html>";
    let d = scrape_index_data(page, "^N225").expect("index extraction is total");
    assert_eq!(d.name, "日経平均株価");
    assert_eq!(d.code, "^N225");
    assert_eq!(d.price, "38,000");
    assert_eq!(d.change_abs, "+100");
    assert_eq!(d.change_pct, "+0.26%");
    assert_eq!(d.update_time, "15:45");
}

#[test]
fn index_page_time_falls_back_to_realtime_label() {
    let page = "<html><body><h1>X</h1>\
        <ul><li>リアルタイム</li><li> 15:30 </li></ul></body></html>";
    let d = scrape_index_data(page, "^X").expect("index extraction is total");
    assert_eq!(d.update_time, "15:30");
}

const QUOTE_PAGE: &str = "<html><head><title>テスト【9999】</title></head><body>\
<h1>テスト</h1>\
<div class=\"price-box\"><span class=\"Price__value\">1,250</span></div>\
<div class=\"PriceChangeLabel__primary\">+10</div>\
<div class=\"PriceChangeLabel__secondary\">(+0.8%)</div>\
<ul class=\"PriceBoard__times\"><time>15:00</time></ul>\
</body></html>";

#[test]
fn dynamic_scrape_rediscovers_and_rechecks() {
    let res = scrape_dynamically(QUOTE_PAGE, "9999").expect("every field has candidates");
    assert_eq!(res.data.name, "テスト");
    assert_eq!(res.data.code, "9999");
    assert_eq!(res.data.price, "1,250");
    assert_eq!(res.data.change_abs, "+10");
    assert_eq!(res.data.change_pct, "(+0.8%)");
    assert_eq!(res.data.update_time, "15:00");
    let labels: Vec<&str> = res.used_selectors.iter().map(|p| p.0.as_str()).collect();
    assert_eq!(labels, vec!["name", "price", "change_abs", "change_pct"]);
    assert!(res.used_selectors.iter().all(|p| !p.1.is_empty()));
}

#[test]
fn dynamic_scrape_needs_a_name() {
    let page = "<html><body><span>123</span>\
        <div class=\"PriceChangeLabel__primary\">+1</div>\
        <div class=\"PriceChangeLabel__secondary\">(1%)</div></body></html>";
    let e = scrape_dynamically(page, "777").expect_err("no title, no name candidates");
    assert!(matches!(e, ScrapeError::NoNameCandidate));
    assert_eq!(e.message(), "Could not find a name candidate.");
}

#[test]
fn dispatch_chooses_the_container_by_code_shape() {
    // only the fourth, stock-page-only container selector matches here
    let page = "<html><body><main><section><div class=\"price\">\
        <span>1,000</span></div></section></main></body></html>";
    assert!(scrape_stock_page_data(page).is_ok());
    let as_board = scrape_for_code(page, "1234.O");
    assert!(matches!(as_board, Err(ScrapeError::PriceBoardContainerNotFound)));
    let as_fx = scrape_for_code(page, "USDJPY=X");
    assert!(matches!(as_fx, Err(ScrapeError::PriceBoardContainerNotFound)));
    assert!(scrape_for_code(page, "1234").is_ok());
}

#[test]
fn dispatch_sends_indexes_through_discovery() {
    let page = "<html><head><title>TEST - market</title></head><body><script>\
        window.__PRELOADED_STATE__ = {\"pageInfo\":{\"title\":\"TEST - market\"},\
        \"priceBoard\":{\"price\":\"4,500\",\"change\":\"+10\",\"changePct\":\"+0.22%\"}};\
        </script></body></html>";
    let d = scrape_for_code(page, "^TEST").expect("the embedded state feeds every field");
    assert_eq!(d.code, "^TEST");
    assert_eq!(d.name, "TEST");
}

#[test]
fn dynamic_scrape_errors_name_the_first_missing_field() {
    // a title yields a name, a span yields a price, but no change labels exist
    let page = "<html><head><title>テスト【1】</title></head><body>\
        <h1>テスト</h1><span>123</span></body></html>";
    let e = scrape_dynamically(page, "42").expect_err("the change fields have no candidates");
    assert!(matches!(e, ScrapeError::NoChangeAbsCandidate));

    // with an absolute change present, the percentage is the first gap
    let page2 = "<html><head><title>テスト【1】</title></head><body>\
        <h1>テスト</h1><span>123</span>\
        <div class=\"PriceChangeLabel__primary\">+1</div></body></html>";
    let e2 = scrape_dynamically(page2, "42").expect_err("no percentage candidates");
    assert!(matches!(e2, ScrapeError::NoChangePctCandidate));
}

#[test]
fn dynamic_scrape_succeeds_whenever_every_field_is_discoverable() {
    let res = scrape_dynamically(QUOTE_PAGE, "7777");
    assert!(res.is_ok());
}
