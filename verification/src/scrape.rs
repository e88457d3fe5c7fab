//! Quote extraction from one fetched page.
//!
//! Each page style gets its own scraper: the stock page and the
//! price-board page locate a container element first and resolve each
//! field inside it through a fallback selector chain; the index page
//! reads a labelled text block; and the dynamic path rediscovers every
//! field from ranked candidates and re-checks it through a freshly
//! synthesized selector. Absent values are explicit sentinels, never
//! empty placeholders.

use vstd::prelude::*;
use vstd::string::StrSliceExecFns;

use crate::backend::doc_matches;
use crate::backend::select_in_document;
use crate::change::change_abs_spec;
use crate::change::change_pct_spec;
use crate::change::parse_change;
use crate::discover::DiscoveredData;
use crate::discover::discover_index_data;
use crate::discover::discover_quote_data;
use crate::resolve::DocKind;
use crate::resolve::first_hit;
use crate::resolve::lemma_first_hit;
use crate::resolve::resolve_field;
use crate::resolve::resolve_spec;
use crate::resolve::sel_hits;
use crate::synth::generate_selector_candidates;
use crate::text::after_sub_spec;
use crate::text::contains_seq;
use crate::text::cut_at_sub_spec;
use crate::text::first_index_opt;
use crate::text::lemma_first_index;
use crate::text::remove_sub_spec;
use crate::text::trim_spec;

verus! {

/// One extracted quote. Every field is a string on purpose: numeric
/// parsing happens only transiently while validating candidates.
#[derive(Debug, Clone)]
pub struct StockData {
    pub name: String,
    pub code: String,
    pub price: String,
    pub change_abs: String,
    pub change_pct: String,
    pub update_time: String,
}

/// Why an extraction gave up.
#[derive(Clone, Copy, PartialEq, Eq, Structural, Debug)]
pub enum ScrapeError {
    MainContainerNotFound,
    PriceBoardContainerNotFound,
    NoNameCandidate,
    NoPriceCandidate,
    NoChangeAbsCandidate,
    NoChangePctCandidate,
    NoNameSelector,
    NoPriceSelector,
    NoChangeAbsSelector,
    NoChangePctSelector,
}

impl ScrapeError {
    pub open spec fn message_spec(&self) -> Seq<char> {
        match self {
            ScrapeError::MainContainerNotFound => "Main container not found"@,
            ScrapeError::PriceBoardContainerNotFound => "PriceBoard container not found"@,
            ScrapeError::NoNameCandidate => "Could not find a name candidate."@,
            ScrapeError::NoPriceCandidate => "Could not find a price candidate."@,
            ScrapeError::NoChangeAbsCandidate => "Could not find an absolute change candidate."@,
            ScrapeError::NoChangePctCandidate => "Could not find a percentage change candidate."@,
            ScrapeError::NoNameSelector => "No selector for name"@,
            ScrapeError::NoPriceSelector => "No selector for price"@,
            ScrapeError::NoChangeAbsSelector => "No selector for absolute change"@,
            ScrapeError::NoChangePctSelector => "No selector for percentage change"@,
        }
    }

    /// The operator-facing description of the failure.
    pub fn message(&self) -> (r: String)
        ensures
            r@ == self.message_spec(),
    {
        match self {
            ScrapeError::MainContainerNotFound => "Main container not found".to_owned(),
            ScrapeError::PriceBoardContainerNotFound => "PriceBoard container not found".to_owned(),
            ScrapeError::NoNameCandidate => "Could not find a name candidate.".to_owned(),
            ScrapeError::NoPriceCandidate => "Could not find a price candidate.".to_owned(),
            ScrapeError::NoChangeAbsCandidate => "Could not find an absolute change candidate.".to_owned(),
            ScrapeError::NoChangePctCandidate => "Could not find a percentage change candidate.".to_owned(),
            ScrapeError::NoNameSelector => "No selector for name".to_owned(),
            ScrapeError::NoPriceSelector => "No selector for price".to_owned(),
            ScrapeError::NoChangeAbsSelector => "No selector for absolute change".to_owned(),
            ScrapeError::NoChangePctSelector => "No selector for percentage change".to_owned(),
        }
    }
}

// ---------------------------------------------------------------------------
// selector chains
// ---------------------------------------------------------------------------

pub open spec fn stock_container_sels() -> Seq<Seq<char>> {
    seq![
        "div[class*='PriceBoard__main']"@,
        "section[class*='PriceBoard']"@,
        "div[class*='BoardMain']"@,
        "main section div[class*='price']"@,
    ]
}

fn stock_container_vec() -> (r: Vec<String>)
    ensures
        r.deep_view() == stock_container_sels(),
{
    let r = vec![
        "div[class*='PriceBoard__main']".to_owned(),
        "section[class*='PriceBoard']".to_owned(),
        "div[class*='BoardMain']".to_owned(),
        "main section div[class*='price']".to_owned(),
    ];
    proof {
        assert(r.deep_view() =~= stock_container_sels());
    }
    r
}

pub open spec fn priceboard_container_sels() -> Seq<Seq<char>> {
    seq![
        "div[class*='PriceBoard__main']"@,
        "section[class*='PriceBoard']"@,
        "div[class*='BoardMain']"@,
    ]
}

fn priceboard_container_vec() -> (r: Vec<String>)
    ensures
        r.deep_view() == priceboard_container_sels(),
{
    let r = vec![
        "div[class*='PriceBoard__main']".to_owned(),
        "section[class*='PriceBoard']".to_owned(),
        "div[class*='BoardMain']".to_owned(),
    ];
    proof {
        assert(r.deep_view() =~= priceboard_container_sels());
    }
    r
}

pub open spec fn name_sels() -> Seq<Seq<char>> {
    seq!["header h2"@, "div[class*='StockName__name']"@, "h1"@, "title"@]
}

fn name_sels_vec() -> (r: Vec<String>)
    ensures
        r.deep_view() == name_sels(),
{
    let r = vec![
        "header h2".to_owned(),
        "div[class*='StockName__name']".to_owned(),
        "h1".to_owned(),
        "title".to_owned(),
    ];
    proof {
        assert(r.deep_view() =~= name_sels());
    }
    r
}

pub open spec fn code_sels() -> Seq<Seq<char>> {
    seq!["span[class*='PriceBoard__code']"@, "div[class*='Symbol'] span"@, "h2 span"@]
}

fn code_sels_vec() -> (r: Vec<String>)
    ensures
        r.deep_view() == code_sels(),
{
    let r = vec![
        "span[class*='PriceBoard__code']".to_owned(),
        "div[class*='Symbol'] span".to_owned(),
        "h2 span".to_owned(),
    ];
    proof {
        assert(r.deep_view() =~= code_sels());
    }
    r
}

pub open spec fn price_sels() -> Seq<Seq<char>> {
    seq![
        "span[class*='PriceBoard__price'] span[class*='StyledNumber__value']"@,
        "div[class*='price'] span"@,
        "div.price span"@,
    ]
}

fn price_sels_vec() -> (r: Vec<String>)
    ensures
        r.deep_view() == price_sels(),
{
    let r = vec![
        "span[class*='PriceBoard__price'] span[class*='StyledNumber__value']".to_owned(),
        "div[class*='price'] span".to_owned(),
        "div.price span".to_owned(),
    ];
    proof {
        assert(r.deep_view() =~= price_sels());
    }
    r
}

pub open spec fn change_sels() -> Seq<Seq<char>> {
    seq!["div[class*='PriceChangeLabel']"@, "div[class*='change']"@, "span[class*='diff']"@]
}

fn change_sels_vec() -> (r: Vec<String>)
    ensures
        r.deep_view() == change_sels(),
{
    let r = vec![
        "div[class*='PriceChangeLabel']".to_owned(),
        "div[class*='change']".to_owned(),
        "span[class*='diff']".to_owned(),
    ];
    proof {
        assert(r.deep_view() =~= change_sels());
    }
    r
}

pub open spec fn time_sels() -> Seq<Seq<char>> {
    seq![
        "ul[class*='PriceBoard__times'] time"@,
        "time[class*='timestamp']"@,
        "div[class*='time'] time"@,
    ]
}

fn time_sels_vec() -> (r: Vec<String>)
    ensures
        r.deep_view() == time_sels(),
{
    let r = vec![
        "ul[class*='PriceBoard__times'] time".to_owned(),
        "time[class*='timestamp']".to_owned(),
        "div[class*='time'] time".to_owned(),
    ];
    proof {
        assert(r.deep_view() =~= time_sels());
    }
    r
}

// ---------------------------------------------------------------------------
// container location and field resolution
// ---------------------------------------------------------------------------

/// The serialized markup of the first element matched by the first
/// hitting container selector, if any hits.
pub open spec fn container_of(h: Seq<char>, sels: Seq<Seq<char>>) -> Option<Seq<char>> {
    match first_hit(DocKind::FullPage, h, sels) {
        Some(i) => Some(doc_matches(h, sels[i])[0].outer),
        None => None,
    }
}

fn find_container(html: &str, sels: &Vec<String>) -> (r: Option<String>)
    ensures
        match r {
            Some(c) => container_of(html@, sels.deep_view()) == Some(c@),
            None => container_of(html@, sels.deep_view()) is None,
        },
{
    let ghost sv = sels.deep_view();
    let n = sels.len();
    let mut i: usize = 0;
    while i < n
        invariant
            i <= n,
            n == sv.len(),
            sv == sels.deep_view(),
            n == sels@.len(),
            forall|j: int| 0 <= j < i ==> !sel_hits(DocKind::FullPage, html@, sv[j]),
        decreases n - i,
    {
        proof {
            assert(sv[i as int] == sels@[i as int]@);
        }
        match select_in_document(html, sels[i].as_str()) {
            Ok(v) => {
                if v.len() > 0 {
                    proof {
                        assert(v@.map_values(|m: crate::backend::MatchRec| m@).len() == v@.len());
                        assert(sel_hits(DocKind::FullPage, html@, sv[i as int]));
                        lemma_first_hit(DocKind::FullPage, html@, sv, i as int);
                        assert(v@.map_values(|m: crate::backend::MatchRec| m@)[0] == v@[0]@);
                    }
                    let c = v[0].outer.clone();
                    return Some(c);
                } else {
                    proof {
                        assert(v@.map_values(|m: crate::backend::MatchRec| m@).len() == 0);
                        assert(!sel_hits(DocKind::FullPage, html@, sv[i as int]));
                    }
                }
            },
            Err(_) => {
                proof {
                    assert(!crate::backend::sel_ok(sv[i as int]));
                }
            },
        }
        i = i + 1;
    }
    proof {
        lemma_first_hit(DocKind::FullPage, html@, sv, n as int);
    }
    None
}

/// The field value: the resolver's answer, or the given default when
/// no selector hits.
pub open spec fn field_or(kind: DocKind, h: Seq<char>, sels: Seq<Seq<char>>, dflt: Seq<char>) -> Seq<
    char,
> {
    match resolve_spec(kind, h, sels) {
        Some(t) => t,
        None => dflt,
    }
}

fn resolve_or(html: &str, kind: DocKind, sels: &Vec<String>, dflt: &str) -> (r: String)
    ensures
        r@ == field_or(kind, html@, sels.deep_view(), dflt@),
{
    match resolve_field(html, kind, sels) {
        Some(t) => t,
        None => dflt.to_owned(),
    }
}

/// What a container-based scrape promises: success exactly when a
/// container selector hits, and every field resolved inside the
/// container's markup through its own fallback chain, with the
/// combined change blob split positionally.
pub open spec fn container_scrape_ok(
    h: Seq<char>,
    csels: Seq<Seq<char>>,
    r: Result<StockData, ScrapeError>,
    err: ScrapeError,
) -> bool {
    match r {
        Ok(d) => container_of(h, csels) matches Some(ch) && {
            &&& d.name@ == field_or(DocKind::Fragment, ch, name_sels(), "UNKNOWN"@)
            &&& d.code@ == field_or(DocKind::Fragment, ch, code_sels(), "N/A"@)
            &&& d.price@ == field_or(DocKind::Fragment, ch, price_sels(), "N/A"@)
            &&& d.change_abs@ == change_abs_spec(
                field_or(DocKind::Fragment, ch, change_sels(), ""@),
            )
            &&& d.change_pct@ == change_pct_spec(
                field_or(DocKind::Fragment, ch, change_sels(), ""@),
            )
            &&& d.update_time@ == field_or(DocKind::Fragment, ch, time_sels(), "N/A"@)
        },
        Err(e) => e == err && container_of(h, csels) is None,
    }
}

fn scrape_container(html: &str, csels: &Vec<String>, err: ScrapeError) -> (r: Result<
    StockData,
    ScrapeError,
>)
    ensures
        container_scrape_ok(html@, csels.deep_view(), r, err),
{
    let container = match find_container(html, csels) {
        Some(c) => c,
        None => {
            return Err(err);
        },
    };
    let name = resolve_or(container.as_str(), DocKind::Fragment, &name_sels_vec(), "UNKNOWN");
    let code = resolve_or(container.as_str(), DocKind::Fragment, &code_sels_vec(), "N/A");
    let price = resolve_or(container.as_str(), DocKind::Fragment, &price_sels_vec(), "N/A");
    let combined = resolve_or(container.as_str(), DocKind::Fragment, &change_sels_vec(), "");
    let (change_abs, change_pct) = parse_change(combined.as_str());
    let update_time = resolve_or(container.as_str(), DocKind::Fragment, &time_sels_vec(), "N/A");
    Ok(StockData { name, code, price, change_abs, change_pct, update_time })
}

/// Extracts a quote from a standard stock page: the main price board
/// is located first, and every field is resolved inside it with its
/// self-healing fallback chain.
pub fn scrape_stock_page_data(html: &str) -> (r: Result<StockData, ScrapeError>)
    ensures
        container_scrape_ok(html@, stock_container_sels(), r, ScrapeError::MainContainerNotFound),
{
    scrape_container(html, &stock_container_vec(), ScrapeError::MainContainerNotFound)
}

/// Extracts a quote from a price-board page (funds and currencies):
/// the same field chains over a slightly narrower container list.
pub fn scrape_priceboard_data(html: &str) -> (r: Result<StockData, ScrapeError>)
    ensures
        container_scrape_ok(
            html@,
            priceboard_container_sels(),
            r,
            ScrapeError::PriceBoardContainerNotFound,
        ),
{
    scrape_container(html, &priceboard_container_vec(), ScrapeError::PriceBoardContainerNotFound)
}

// ---------------------------------------------------------------------------
// index pages
// ---------------------------------------------------------------------------

/// The list item right after the one naming the realtime label, if
/// the label occurs.
pub open spec fn time_after_label(ms: Seq<crate::backend::MatchModel>, armed: bool) -> Option<
    Seq<char>,
>
    decreases ms.len(),
{
    if ms.len() == 0 {
        None
    } else if armed {
        Some(trim_spec(ms[0].text))
    } else {
        time_after_label(ms.drop_first(), contains_seq(ms[0].text, "リアルタイム"@))
    }
}

/// The view of an optional string.
pub open spec fn opt_view(r: Option<String>) -> Option<Seq<char>> {
    match r {
        Some(t) => Some(t@),
        None => None,
    }
}

/// Walks the page's list items and returns the trimmed text of the
/// item right after the one carrying the realtime label.
pub fn find_time_after_realtime_label(html: &str) -> (r: Option<String>)
    ensures
        crate::backend::sel_ok("ul li"@) ==> opt_view(r) == time_after_label(
            doc_matches(html@, "ul li"@),
            false,
        ),
        !crate::backend::sel_ok("ul li"@) ==> r is None,
{
    let items = match select_in_document(html, "ul li") {
        Ok(v) => v,
        Err(_) => {
            return None;
        },
    };
    let ghost ms = doc_matches(html@, "ul li"@);
    proof {
        assert(items@.map_values(|m: crate::backend::MatchRec| m@) == ms);
    }
    let n = items.len();
    let mut armed = false;
    let mut i: usize = 0;
    let mut result: Option<String> = None;
    proof {
        assert(ms.skip(0) =~= ms);
    }
    while i < n && result.is_none()
        invariant
            i <= n,
            n == ms.len(),
            n == items@.len(),
            crate::backend::sel_ok("ul li"@),
            items@.map_values(|m: crate::backend::MatchRec| m@) == ms,
            match result {
                Some(t) => time_after_label(ms, false) == Some(t@),
                None => time_after_label(ms, false) == time_after_label(
                    ms.skip(i as int),
                    armed,
                ),
            },
        decreases n - i,
    {
        proof {
            assert(ms[i as int] == items@[i as int]@);
            assert(ms.skip(i as int)[0] == ms[i as int]);
            assert(ms.skip(i as int).drop_first() =~= ms.skip(i as int + 1));
        }
        if armed {
            let t = crate::text::trim_str(items[i].text.as_str());
            proof {
                assert(ms.skip(i as int).len() > 0);
                assert(t@ == trim_spec(ms[i as int].text));
            }
            result = Some(t);
        } else {
            armed = crate::text::contains_str(items[i].text.as_str(), "リアルタイム");
        }
        i = i + 1;
    }
    proof {
        if result is None {
            assert(ms.skip(n as int).len() == 0);
        }
    }
    result
}

/// The update time reduced to its clock part: the text between the
/// first `:` and the first `）`, trimmed — or the whole text trimmed
/// when that bracket structure is absent.
pub open spec fn format_update_time_spec(s: Seq<char>) -> Seq<char> {
    match (first_index_opt(s, ':'), first_index_opt(s, '）')) {
        (Some(i), Some(j)) => if i < j {
            trim_spec(s.subrange(i + 1, j))
        } else {
            trim_spec(s)
        },
        _ => trim_spec(s),
    }
}

pub fn format_update_time(time_str: &str) -> (r: String)
    ensures
        r@ == format_update_time_spec(time_str@),
{
    let v = crate::text::str_chars(time_str);
    let colon = crate::text::find_char(&v, ':');
    let paren = crate::text::find_char(&v, '）');
    proof {
        match colon {
            Some(i) => lemma_first_index(time_str@, ':', i as int),
            None => lemma_first_index(time_str@, ':', time_str@.len() as int),
        }
        match paren {
            Some(j) => lemma_first_index(time_str@, '）', j as int),
            None => lemma_first_index(time_str@, '）', time_str@.len() as int),
        }
    }
    match (colon, paren) {
        (Some(i), Some(j)) => {
            if i < j {
                let mid = time_str.substring_char(i + 1, j);
                crate::text::trim_str(mid)
            } else {
                crate::text::trim_str(time_str)
            }
        },
        _ => crate::text::trim_str(time_str),
    }
}

pub open spec fn index_h1_sels() -> Seq<Seq<char>> {
    seq!["h1[class*='title']"@, "h1"@]
}

pub open spec fn index_price_block_sels() -> Seq<Seq<char>> {
    seq!["div[class*='_BasePriceBoard__price']"@]
}

pub open spec fn index_time_sels() -> Seq<Seq<char>> {
    seq!["li[class*='__time--localUpdateTime'] > time"@, "div[class*='_BasePriceBoard__time'] time"@]
}

/// The index page's name: the heading with the boilerplate suffix
/// removed, trimmed.
pub open spec fn index_name_spec(h: Seq<char>) -> Seq<char> {
    trim_spec(
        remove_sub_spec(
            field_or(DocKind::FullPage, h, index_h1_sels(), ""@),
            "の指数情報・推移"@,
        ),
    )
}

/// The price block split at its labels: the price before the
/// change label, the combined change between the change label and the
/// realtime label.
pub open spec fn index_price_spec(h: Seq<char>) -> Seq<char> {
    trim_spec(
        cut_at_sub_spec(field_or(DocKind::FullPage, h, index_price_block_sels(), ""@), "前日比"@),
    )
}

pub open spec fn index_combined_change_spec(h: Seq<char>) -> Seq<char> {
    trim_spec(
        cut_at_sub_spec(
            after_sub_spec(
                field_or(DocKind::FullPage, h, index_price_block_sels(), ""@),
                "前日比"@,
            ),
            "リアルタイム"@,
        ),
    )
}

/// The raw update time: the time selectors first, then the list item
/// after the realtime label when they yield nothing.
pub open spec fn index_raw_time_spec(h: Seq<char>) -> Seq<char> {
    let direct = field_or(DocKind::FullPage, h, index_time_sels(), ""@);
    if direct.len() > 0 {
        direct
    } else if crate::backend::sel_ok("ul li"@) {
        match time_after_label(doc_matches(h, "ul li"@), false) {
            Some(t) => t,
            None => ""@,
        }
    } else {
        ""@
    }
}

/// Extracts a quote from an index page: the heading gives the name,
/// a labelled price block gives price and combined change, and the
/// update time falls back to the list item after the realtime label.
pub fn scrape_index_data(html: &str, code: &str) -> (r: Result<StockData, ScrapeError>)
    ensures
        r matches Ok(d) && d.name@ == index_name_spec(html@) && d.code@ == code@ && d.price@
            == index_price_spec(html@) && d.change_abs@ == change_abs_spec(
            index_combined_change_spec(html@),
        ) && d.change_pct@ == change_pct_spec(index_combined_change_spec(html@)) && d.update_time@
            == format_update_time_spec(index_raw_time_spec(html@)),
{
    let h1_sels = vec!["h1[class*='title']".to_owned(), "h1".to_owned()];
    proof {
        assert(h1_sels.deep_view() =~= index_h1_sels());
    }
    let raw_name = resolve_or(html, DocKind::FullPage, &h1_sels, "");
    let name = crate::text::trim_str(
        crate::text::remove_sub(raw_name.as_str(), "の指数情報・推移").as_str(),
    );
    let block_sels = vec!["div[class*='_BasePriceBoard__price']".to_owned()];
    proof {
        assert(block_sels.deep_view() =~= index_price_block_sels());
    }
    let block = resolve_or(html, DocKind::FullPage, &block_sels, "");
    let price = crate::text::trim_str(
        crate::text::cut_at_sub(block.as_str(), "前日比").as_str(),
    );
    let combined = crate::text::trim_str(
        crate::text::cut_at_sub(
            crate::text::after_sub(block.as_str(), "前日比").as_str(),
            "リアルタイム",
        ).as_str(),
    );
    let (change_abs, change_pct) = parse_change(combined.as_str());
    let t_sels = vec![
        "li[class*='__time--localUpdateTime'] > time".to_owned(),
        "div[class*='_BasePriceBoard__time'] time".to_owned(),
    ];
    proof {
        assert(t_sels.deep_view() =~= index_time_sels());
    }
    let ghost direct = field_or(DocKind::FullPage, html@, index_time_sels(), ""@);
    let mut update_time = resolve_or(html, DocKind::FullPage, &t_sels, "");
    if update_time.unicode_len() == 0 {
        match find_time_after_realtime_label(html) {
            Some(t) => {
                proof {
                    assert(crate::backend::sel_ok("ul li"@));
                }
                update_time = t;
            },
            None => {
                proof {
                    reveal_strlit("");
                    assert(update_time@ =~= ""@);
                }
            },
        }
    }
    proof {
        assert(update_time@ == index_raw_time_spec(html@));
    }
    let update_time = format_update_time(update_time.as_str());
    Ok(StockData { name, code: code.to_owned(), price, change_abs, change_pct, update_time })
}

// ---------------------------------------------------------------------------
// the dynamic self-healing path
// ---------------------------------------------------------------------------

/// A dynamically extracted quote together with the selector chosen
/// for each field, ready to be persisted for the next run.
#[derive(Debug)]
pub struct DynamicScrapeResult {
    pub data: StockData,
    pub used_selectors: Vec<(String, String)>,
}

/// Re-checks a discovered value: the synthesized selector must lead
/// back to an element whose trimmed text is the candidate text,
/// otherwise the field is left empty.
/// What re-checking yields: the expected text exactly when the
/// selector compiles and some match's trimmed text equals it, and the
/// empty string otherwise.
pub open spec fn reselect_spec(h: Seq<char>, sel: Seq<char>, expected: Seq<char>) -> Seq<char> {
    if crate::backend::sel_ok(sel) && (exists|k: int|
        0 <= k < doc_matches(h, sel).len() && trim_spec(
            #[trigger] doc_matches(h, sel)[k].text,
        ) == expected) {
        expected
    } else {
        ""@
    }
}

fn reselect(html: &str, selector: &str, expected: &str) -> (r: String)
    ensures
        r@ == reselect_spec(html@, selector@, expected@),
{
    match select_in_document(html, selector) {
        Ok(v) => {
            let n = v.len();
            let mut i: usize = 0;
            while i < n
                invariant
                    i <= n,
                    n == v@.len(),
                    n == doc_matches(html@, selector@).len(),
                    crate::backend::sel_ok(selector@),
                    v@.map_values(|m: crate::backend::MatchRec| m@) == doc_matches(
                        html@,
                        selector@,
                    ),
                    forall|k: int|
                        0 <= k < i ==> trim_spec(
                            (#[trigger] doc_matches(html@, selector@)[k]).text,
                        ) != expected@,
                decreases n - i,
            {
                proof {
                    assert(doc_matches(html@, selector@)[i as int] == v@[i as int]@);
                }
                let t = crate::text::trim_str(v[i].text.as_str());
                if crate::text::eq_str(t.as_str(), expected) {
                    proof {
                        assert(trim_spec(doc_matches(html@, selector@)[i as int].text)
                            == expected@);
                    }
                    return expected.to_owned();
                }
                i = i + 1;
            }
            proof {
                reveal_strlit("");
                assert(""@ =~= Seq::<char>::empty());
            }
            String::new()
        },
        Err(_) => {
            proof {
                reveal_strlit("");
                assert(""@ =~= Seq::<char>::empty());
            }
            String::new()
        },
    }
}

/// What discovery can find per field on a quote (non-index) page.
pub open spec fn quote_name_found(dm: Seq<crate::dom::ElemModel>) -> bool {
    crate::discover::base_name_of(dm).len() > 0
}

pub open spec fn quote_price_found(dm: Seq<crate::dom::ElemModel>) -> bool {
    (exists|i: int| crate::discover::price_hit(dm, i)) || (exists|i: int|
        crate::discover::price_fallback_hit(dm, i))
}

pub open spec fn quote_abs_found(dm: Seq<crate::dom::ElemModel>) -> bool {
    exists|i: int| crate::discover::change_abs_hit(dm, i)
}

pub open spec fn quote_pct_found(dm: Seq<crate::dom::ElemModel>) -> bool {
    exists|i: int| crate::discover::change_pct_hit(dm, i)
}

/// What one successful dynamic field means: some candidate list
/// meeting the field's discovery contract is non-empty; the used
/// selector is the head of a ranked synthesis list for the top
/// candidate's anchor; and the value is that candidate's text — taken
/// as is for the name, re-checked through the used selector for the
/// other fields (kept only when the selector re-finds it, empty
/// otherwise).
pub open spec fn dynamic_field_ok(
    dm: Seq<crate::dom::ElemModel>,
    h: Seq<char>,
    kind: crate::discover::FieldKind,
    sel: Seq<char>,
    value: Seq<char>,
    rechecked: bool,
) -> bool {
    exists|cs: Seq<crate::candidates::CandModel>|
        #[trigger] crate::discover::discovered_ok(dm, kind, cs) && cs.len() > 0 && (exists|a: int|
        #[trigger] crate::dom::is_anchor(dm, cs[0].text, a) && (exists|strs: Seq<Seq<char>>|
        #[trigger] crate::synth::ranked_strings_ok(dm, a, strs) && strs.len() > 0 && sel
            == strs[0])) && value == (if rechecked {
        reselect_spec(h, sel, cs[0].text)
    } else {
        cs[0].text
    })
}

/// The whole self-healing pipeline on one fetched page: discovery
/// ranks candidates per field, synthesis derives a selector for each
/// top candidate, and each value is kept only when its fresh selector
/// re-finds it. On a quote page the outcome is decided exactly by
/// what discovery can find: extraction succeeds whenever every field
/// has an eligible element, and each error names the first field
/// without one. On an index page the embedded-state and fallback
/// heuristics decide, and only the error taxonomy is pinned.
pub fn scrape_dynamically(html: &str, code: &str) -> (r: Result<DynamicScrapeResult, ScrapeError>)
    ensures
        r matches Ok(res) ==> res.data.code@ == code@ && res.used_selectors@.len() == 4
            && res.used_selectors@[0].0@ == "name"@ && res.used_selectors@[1].0@ == "price"@
            && res.used_selectors@[2].0@ == "change_abs"@ && res.used_selectors@[3].0@
            == "change_pct"@ && res.data.update_time@ == field_or(
            DocKind::FullPage,
            html@,
            dynamic_time_sels(),
            "N/A"@,
        ),
        r matches Err(e) ==> (e == ScrapeError::NoNameCandidate || e
            == ScrapeError::NoPriceCandidate || e == ScrapeError::NoChangeAbsCandidate || e
            == ScrapeError::NoChangePctCandidate || e == ScrapeError::NoNameSelector || e
            == ScrapeError::NoPriceSelector || e == ScrapeError::NoChangeAbsSelector || e
            == ScrapeError::NoChangePctSelector),
        (r matches Ok(res) ==> (!is_index_code(code@) ==> ({
            let dm = crate::dom::dom_model(html@);
            &&& dynamic_field_ok(
                dm,
                html@,
                crate::discover::FieldKind::Name,
                res.used_selectors@[0].1@,
                res.data.name@,
                false,
            )
            &&& dynamic_field_ok(
                dm,
                html@,
                crate::discover::FieldKind::Price,
                res.used_selectors@[1].1@,
                res.data.price@,
                true,
            )
            &&& dynamic_field_ok(
                dm,
                html@,
                crate::discover::FieldKind::ChangeAbs,
                res.used_selectors@[2].1@,
                res.data.change_abs@,
                true,
            )
            &&& dynamic_field_ok(
                dm,
                html@,
                crate::discover::FieldKind::ChangePct,
                res.used_selectors@[3].1@,
                res.data.change_pct@,
                true,
            )
        }))),
        !is_index_code(code@) ==> ({
            let dm = crate::dom::dom_model(html@);
            &&& (r == Err::<DynamicScrapeResult, ScrapeError>(ScrapeError::NoNameCandidate)
                <==> !quote_name_found(dm))
            &&& (r == Err::<DynamicScrapeResult, ScrapeError>(ScrapeError::NoPriceCandidate)
                <==> quote_name_found(dm) && !quote_price_found(dm))
            &&& (r == Err::<DynamicScrapeResult, ScrapeError>(ScrapeError::NoChangeAbsCandidate)
                <==> quote_name_found(dm) && quote_price_found(dm) && !quote_abs_found(dm))
            &&& (r == Err::<DynamicScrapeResult, ScrapeError>(ScrapeError::NoChangePctCandidate)
                <==> quote_name_found(dm) && quote_price_found(dm) && quote_abs_found(dm)
                    && !quote_pct_found(dm))
            &&& (quote_name_found(dm) && quote_price_found(dm) && quote_abs_found(dm)
                && quote_pct_found(dm) ==> r is Ok)
        }),
{
    let idx_code = crate::text::starts_with_char(code, '^');
    let discovered: DiscoveredData = if idx_code {
        discover_index_data(html, code)
    } else {
        discover_quote_data(html, code)
    };
    let ghost dm = crate::dom::dom_model(html@);
    if discovered.name_candidates.len() == 0 {
        proof {
            if !idx_code {
                // an empty name list means the page title yields no base name
                if quote_name_found(dm) {
                    crate::discover::lemma_find_tag_some(dm, "title"@);
                }
            }
        }
        return Err(ScrapeError::NoNameCandidate);
    }
    proof {
        if !idx_code {
            // a non-empty name list means the base name is non-empty
            assert(quote_name_found(dm));
        }
    }
    if discovered.price_candidates.len() == 0 {
        proof {
            if !idx_code {
                if exists|i: int| crate::discover::price_hit(dm, i) {
                    let w = choose|i: int| crate::discover::price_hit(dm, i);
                    assert(crate::candidates::text_present(
                        crate::candidates::cand_models(discovered.price_candidates@),
                        trim_spec(dm[w].text),
                    ));
                }
                if exists|i: int| crate::discover::price_fallback_hit(dm, i) {
                    let w = choose|i: int| crate::discover::price_fallback_hit(dm, i);
                    assert(crate::candidates::text_present(
                        crate::candidates::cand_models(discovered.price_candidates@),
                        trim_spec(dm[w].text),
                    ));
                }
                assert(!quote_price_found(dm));
            }
        }
        return Err(ScrapeError::NoPriceCandidate);
    }
    proof {
        if !idx_code {
            let m0 = crate::candidates::cand_models(discovered.price_candidates@)[0];
            assert(m0 == discovered.price_candidates@[0]@);
            assert(crate::discover::price_origin_ok(dm, m0));
            assert(quote_price_found(dm));
        }
    }
    if discovered.change_abs_candidates.len() == 0 {
        proof {
            if !idx_code {
                if exists|i: int| crate::discover::change_abs_hit(dm, i) {
                    let w = choose|i: int| crate::discover::change_abs_hit(dm, i);
                    assert(crate::candidates::text_present(
                        crate::candidates::cand_models(discovered.change_abs_candidates@),
                        trim_spec(dm[w].text),
                    ));
                }
                assert(!quote_abs_found(dm));
            }
        }
        return Err(ScrapeError::NoChangeAbsCandidate);
    }
    proof {
        if !idx_code {
            let m0 = crate::candidates::cand_models(discovered.change_abs_candidates@)[0];
            assert(m0 == discovered.change_abs_candidates@[0]@);
            assert(crate::discover::change_abs_origin_ok(dm, m0));
            assert(quote_abs_found(dm));
        }
    }
    if discovered.change_pct_candidates.len() == 0 {
        proof {
            if !idx_code {
                if exists|i: int| crate::discover::change_pct_hit(dm, i) {
                    let w = choose|i: int| crate::discover::change_pct_hit(dm, i);
                    assert(crate::candidates::text_present(
                        crate::candidates::cand_models(discovered.change_pct_candidates@),
                        trim_spec(dm[w].text),
                    ));
                }
                assert(!quote_pct_found(dm));
            }
        }
        return Err(ScrapeError::NoChangePctCandidate);
    }
    proof {
        if !idx_code {
            let m0 = crate::candidates::cand_models(discovered.change_pct_candidates@)[0];
            assert(m0 == discovered.change_pct_candidates@[0]@);
            assert(crate::discover::change_pct_origin_ok(dm, m0));
            assert(quote_pct_found(dm));
        }
    }
    let top_name = &discovered.name_candidates[0];
    let top_price = &discovered.price_candidates[0];
    let top_abs = &discovered.change_abs_candidates[0];
    let top_pct = &discovered.change_pct_candidates[0];
    proof {
        // on a quote page every top candidate's text occurs inside
        // its origin element, so synthesis always has an anchor
        if !idx_code {
            reveal(crate::discover::name_origin_ok);
            let nm = crate::candidates::cand_models(discovered.name_candidates@)[0];
            assert(nm == discovered.name_candidates@[0]@);
            assert(crate::discover::name_origin_ok(dm, nm));
            crate::discover::lemma_find_tag_some(dm, "title"@);
            let ft = crate::discover::find_tag(dm, "title"@);
            let from_title = match ft {
                Some(t) => nm.text == trim_spec(dm[t].text) && nm.score == 50,
                None => false,
            };
            if from_title {
                match ft {
                    Some(t) => {
                        crate::text::lemma_trim_substring(dm[t].text);
                        assert(crate::dom::eligible(dm, nm.text, t));
                    },
                    None => {},
                }
            } else {
                let e = choose|e: int|
                    crate::discover::heading_hit(dm, e, crate::discover::base_name_of(dm))
                        && nm.text == trim_spec(#[trigger] dm[e].text);
                crate::text::lemma_trim_substring(dm[e].text);
                assert(crate::dom::eligible(dm, nm.text, e));
            }
            let pm = crate::candidates::cand_models(discovered.price_candidates@)[0];
            assert(pm == discovered.price_candidates@[0]@);
            assert(crate::discover::price_origin_ok(dm, pm));
            if exists|e: int|
                crate::discover::price_hit(dm, e) && pm.text == trim_spec(
                    #[trigger] dm[e].text,
                ) {
                let e = choose|e: int|
                    crate::discover::price_hit(dm, e) && pm.text == trim_spec(
                        #[trigger] dm[e].text,
                    );
                crate::text::lemma_trim_substring(dm[e].text);
                assert(crate::dom::eligible(dm, pm.text, e));
            } else {
                let e = choose|e: int|
                    crate::discover::price_fallback_hit(dm, e) && pm.text == trim_spec(
                        #[trigger] dm[e].text,
                    );
                crate::text::lemma_trim_substring(dm[e].text);
                assert(crate::dom::eligible(dm, pm.text, e));
            }
            let am = crate::candidates::cand_models(discovered.change_abs_candidates@)[0];
            assert(am == discovered.change_abs_candidates@[0]@);
            assert(crate::discover::change_abs_origin_ok(dm, am));
            let ea = choose|e: int|
                crate::discover::change_abs_hit(dm, e) && am.text == trim_spec(
                    #[trigger] dm[e].text,
                );
            crate::text::lemma_trim_substring(dm[ea].text);
            assert(crate::dom::eligible(dm, am.text, ea));
            let cm = crate::candidates::cand_models(discovered.change_pct_candidates@)[0];
            assert(cm == discovered.change_pct_candidates@[0]@);
            assert(crate::discover::change_pct_origin_ok(dm, cm));
            let ec = choose|e: int|
                crate::discover::change_pct_hit(dm, e) && cm.text == trim_spec(
                    #[trigger] dm[e].text,
                );
            crate::text::lemma_trim_substring(dm[ec].text);
            assert(crate::dom::eligible(dm, cm.text, ec));
        }
    }
    let name_selectors = generate_selector_candidates(html, top_name.text.as_str());
    let price_selectors = generate_selector_candidates(html, top_price.text.as_str());
    let abs_selectors = generate_selector_candidates(html, top_abs.text.as_str());
    let pct_selectors = generate_selector_candidates(html, top_pct.text.as_str());
    if name_selectors.len() == 0 {
        proof {
            assert(idx_code);
        }
        return Err(ScrapeError::NoNameSelector);
    }
    if price_selectors.len() == 0 {
        proof {
            assert(idx_code);
        }
        return Err(ScrapeError::NoPriceSelector);
    }
    if abs_selectors.len() == 0 {
        proof {
            assert(idx_code);
        }
        return Err(ScrapeError::NoChangeAbsSelector);
    }
    if pct_selectors.len() == 0 {
        proof {
            assert(idx_code);
        }
        return Err(ScrapeError::NoChangePctSelector);
    }
    let name = top_name.text.clone();
    let price = reselect(html, price_selectors[0].as_str(), top_price.text.as_str());
    let change_abs = reselect(html, abs_selectors[0].as_str(), top_abs.text.as_str());
    let change_pct = reselect(html, pct_selectors[0].as_str(), top_pct.text.as_str());
    let tsels = vec![
        "ul[class*='PriceBoard__times'] time".to_owned(),
        "time[class*='timestamp']".to_owned(),
    ];
    proof {
        assert(tsels.deep_view() =~= dynamic_time_sels());
    }
    let update_time = resolve_or(html, DocKind::FullPage, &tsels, "N/A");
    let data = StockData {
        name,
        code: code.to_owned(),
        price,
        change_abs,
        change_pct,
        update_time,
    };
    let mut used: Vec<(String, String)> = Vec::new();
    used.push(("name".to_owned(), name_selectors[0].clone()));
    used.push(("price".to_owned(), price_selectors[0].clone()));
    used.push(("change_abs".to_owned(), abs_selectors[0].clone()));
    used.push(("change_pct".to_owned(), pct_selectors[0].clone()));
    proof {
        if !idx_code {
            assert(used@[0].1@ == name_selectors@[0]@);
            assert(used@[1].1@ == price_selectors@[0]@);
            assert(used@[2].1@ == abs_selectors@[0]@);
            assert(used@[3].1@ == pct_selectors@[0]@);
            let nm = crate::candidates::cand_models(discovered.name_candidates@);
            assert(nm[0] == discovered.name_candidates@[0]@);
            let nstrs = name_selectors@.map_values(|t: String| t@);
            let an = choose|a: int|
                #[trigger] crate::dom::is_anchor(dm, top_name.text@, a) && (crate::synth::tag_plain(
                    dm[a].tag,
                ) ==> name_selectors@[name_selectors@.len() - 1]@ == dm[a].tag) && (
                crate::synth::anc_id_shape(dm, a) ==> name_selectors@[0]@
                    == crate::synth::anc_id_sel_spec(
                    crate::synth::parent_id(dm, a),
                    dm[a].tag,
                )) && crate::synth::ranked_strings_ok(dm, a, nstrs);
            assert(crate::dom::is_anchor(dm, nm[0].text, an));
            assert(nstrs[0] == name_selectors@[0]@);
            assert(data.name@ == nm[0].text);
            assert(dynamic_field_ok(
                dm,
                html@,
                crate::discover::FieldKind::Name,
                used@[0].1@,
                data.name@,
                false,
            ));
            let pm = crate::candidates::cand_models(discovered.price_candidates@);
            assert(pm[0] == discovered.price_candidates@[0]@);
            let pstrs = price_selectors@.map_values(|t: String| t@);
            let ap = choose|a: int|
                #[trigger] crate::dom::is_anchor(dm, top_price.text@, a) && (
                crate::synth::tag_plain(dm[a].tag) ==> price_selectors@[price_selectors@.len()
                    - 1]@ == dm[a].tag) && (crate::synth::anc_id_shape(dm, a)
                    ==> price_selectors@[0]@ == crate::synth::anc_id_sel_spec(
                    crate::synth::parent_id(dm, a),
                    dm[a].tag,
                )) && crate::synth::ranked_strings_ok(dm, a, pstrs);
            assert(crate::dom::is_anchor(dm, pm[0].text, ap));
            assert(pstrs[0] == price_selectors@[0]@);
            assert(data.price@ == reselect_spec(html@, used@[1].1@, pm[0].text));
            assert(dynamic_field_ok(
                dm,
                html@,
                crate::discover::FieldKind::Price,
                used@[1].1@,
                data.price@,
                true,
            ));
            let am = crate::candidates::cand_models(discovered.change_abs_candidates@);
            assert(am[0] == discovered.change_abs_candidates@[0]@);
            let astrs = abs_selectors@.map_values(|t: String| t@);
            let aa = choose|a: int|
                #[trigger] crate::dom::is_anchor(dm, top_abs.text@, a) && (crate::synth::tag_plain(
                    dm[a].tag,
                ) ==> abs_selectors@[abs_selectors@.len() - 1]@ == dm[a].tag) && (
                crate::synth::anc_id_shape(dm, a) ==> abs_selectors@[0]@
                    == crate::synth::anc_id_sel_spec(
                    crate::synth::parent_id(dm, a),
                    dm[a].tag,
                )) && crate::synth::ranked_strings_ok(dm, a, astrs);
            assert(crate::dom::is_anchor(dm, am[0].text, aa));
            assert(astrs[0] == abs_selectors@[0]@);
            assert(data.change_abs@ == reselect_spec(html@, used@[2].1@, am[0].text));
            assert(dynamic_field_ok(
                dm,
                html@,
                crate::discover::FieldKind::ChangeAbs,
                used@[2].1@,
                data.change_abs@,
                true,
            ));
            let cm = crate::candidates::cand_models(discovered.change_pct_candidates@);
            assert(cm[0] == discovered.change_pct_candidates@[0]@);
            let cstrs = pct_selectors@.map_values(|t: String| t@);
            let ac = choose|a: int|
                #[trigger] crate::dom::is_anchor(dm, top_pct.text@, a) && (crate::synth::tag_plain(
                    dm[a].tag,
                ) ==> pct_selectors@[pct_selectors@.len() - 1]@ == dm[a].tag) && (
                crate::synth::anc_id_shape(dm, a) ==> pct_selectors@[0]@
                    == crate::synth::anc_id_sel_spec(
                    crate::synth::parent_id(dm, a),
                    dm[a].tag,
                )) && crate::synth::ranked_strings_ok(dm, a, cstrs);
            assert(crate::dom::is_anchor(dm, cm[0].text, ac));
            assert(cstrs[0] == pct_selectors@[0]@);
            assert(data.change_pct@ == reselect_spec(html@, used@[3].1@, cm[0].text));
            assert(dynamic_field_ok(
                dm,
                html@,
                crate::discover::FieldKind::ChangePct,
                used@[3].1@,
                data.change_pct@,
                true,
            ));
        }
    }
    Ok(DynamicScrapeResult { data, used_selectors: used })
}

pub open spec fn dynamic_time_sels() -> Seq<Seq<char>> {
    seq!["ul[class*='PriceBoard__times'] time"@, "time[class*='timestamp']"@]
}

// ---------------------------------------------------------------------------
// dispatch by symbol shape
// ---------------------------------------------------------------------------

/// The symbol names an index.
pub open spec fn is_index_code(c: Seq<char>) -> bool {
    c.len() > 0 && c[0] == '^'
}

/// The symbol names a fund or a currency pair.
pub open spec fn is_board_code(c: Seq<char>) -> bool {
    (c.len() >= 2 && c[c.len() - 2] == '.' && c[c.len() - 1] == 'O') || (c.len() >= 2 && c[c.len()
        - 2] == '=' && c[c.len() - 1] == 'X')
}

fn ends_with_2(s: &str, c1: char, c2: char) -> (b: bool)
    ensures
        b == (s@.len() >= 2 && s@[s@.len() - 2] == c1 && s@[s@.len() - 1] == c2),
{
    let n = s.unicode_len();
    if n < 2 {
        return false;
    }
    s.get_char(n - 2) == c1 && s.get_char(n - 1) == c2
}

/// Extracts a quote from a fetched page, choosing the strategy by the
/// symbol's shape: indexes go through the dynamic self-healing path,
/// funds and currencies through the price board, everything else
/// through the standard stock page.
pub fn scrape_for_code(html: &str, code: &str) -> (r: Result<StockData, ScrapeError>)
    ensures
        is_index_code(code@) ==> ((r matches Ok(d) ==> d.code@ == code@ && d.update_time@
            == field_or(DocKind::FullPage, html@, dynamic_time_sels(), "N/A"@)) && (r matches Err(
            e,
        ) ==> (e == ScrapeError::NoNameCandidate || e == ScrapeError::NoPriceCandidate || e
            == ScrapeError::NoChangeAbsCandidate || e == ScrapeError::NoChangePctCandidate || e
            == ScrapeError::NoNameSelector || e == ScrapeError::NoPriceSelector || e
            == ScrapeError::NoChangeAbsSelector || e == ScrapeError::NoChangePctSelector))),
        !is_index_code(code@) && is_board_code(code@) ==> container_scrape_ok(
            html@,
            priceboard_container_sels(),
            r,
            ScrapeError::PriceBoardContainerNotFound,
        ),
        !is_index_code(code@) && !is_board_code(code@) ==> container_scrape_ok(
            html@,
            stock_container_sels(),
            r,
            ScrapeError::MainContainerNotFound,
        ),
{
    if crate::text::starts_with_char(code, '^') {
        match scrape_dynamically(html, code) {
            Ok(res) => Ok(res.data),
            Err(e) => Err(e),
        }
    } else if ends_with_2(code, '.', 'O') || ends_with_2(code, '=', 'X') {
        scrape_priceboard_data(html)
    } else {
        scrape_stock_page_data(html)
    }
}

} // verus!
