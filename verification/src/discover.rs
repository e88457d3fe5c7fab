//! The candidate discovery engine.
//!
//! When every stored selector has gone stale, discovery locates field
//! values from scratch: each field kind has its own eligibility rules
//! over the flattened document, every eligible element's trimmed text
//! becomes a ranked candidate, equal texts are merged keeping the
//! best score, and the result is ranked best-first. A field with no
//! structured match falls back to a broad low-confidence scan so the
//! caller always has a last resort.

use vstd::prelude::*;
use vstd::string::StrSliceExecFns;

use crate::candidates::CandModel;
use crate::candidates::RankedCandidate;
use crate::candidates::cand_models;
use crate::candidates::cand_sorted;
use crate::candidates::distinct_texts;
use crate::candidates::lemma_all_transfer;
use crate::candidates::lemma_merge_all;
use crate::candidates::lemma_merge_distinct;
use crate::candidates::lemma_merge_has_text;
use crate::candidates::lemma_merge_keeps_text;
use crate::candidates::lemma_text_transfer;
use crate::candidates::merge_candidate;
use crate::candidates::merge_spec;
use crate::candidates::sort_candidates;
use crate::candidates::text_present;
use crate::dom::Dom;
use crate::dom::ElemModel;
use crate::dom::attr_value;
use crate::dom::class_attr;
use crate::dom::dom_model;
use crate::dom::parse_dom;
use crate::extract::state_capture;
use crate::text::contains_seq;
use crate::text::cut_at_char_spec;
use crate::text::cut_at_sub_spec;
use crate::text::is_digit_char;
use crate::text::is_nonneg_decimal;
use crate::text::is_trimmed;
use crate::text::lemma_trim_trimmed;
use crate::text::remove_char_spec;
use crate::text::trim_spec;

verus! {

/// The quote fields that discovery can hunt for.
#[derive(Clone, Copy, PartialEq, Eq, Structural, Debug)]
pub enum FieldKind {
    Name,
    Price,
    ChangeAbs,
    ChangePct,
}

// ---------------------------------------------------------------------------
// field text shapes
// ---------------------------------------------------------------------------

/// Numeric plausibility for a price: at least one digit, and a
/// non-negative decimal once grouping commas are stripped.
pub open spec fn price_text_ok(t: Seq<char>) -> bool {
    (exists|i: int| 0 <= i < t.len() && is_digit_char(t[i])) && is_nonneg_decimal(
        remove_char_spec(t, ','),
    )
}

pub fn check_price_text(t: &str) -> (b: bool)
    ensures
        b == price_text_ok(t@),
{
    let v = crate::text::str_chars(t);
    if !crate::text::has_digit(&v) {
        return false;
    }
    let stripped = crate::text::remove_char(&v, ',');
    crate::text::check_nonneg_decimal(&stripped)
}

/// An absolute change: an explicit sign up front and a digit somewhere.
pub open spec fn change_abs_text_ok(t: Seq<char>) -> bool {
    t.len() > 0 && (t[0] == '+' || t[0] == '-') && (exists|i: int|
        0 <= i < t.len() && is_digit_char(t[i]))
}

pub fn check_change_abs_text(t: &str) -> (b: bool)
    ensures
        b == change_abs_text_ok(t@),
{
    let signed = crate::text::starts_with_char(t, '+') || crate::text::starts_with_char(t, '-');
    if !signed {
        return false;
    }
    let v = crate::text::str_chars(t);
    crate::text::has_digit(&v)
}

/// A relative change: both a percent sign and an opening parenthesis.
pub open spec fn change_pct_text_ok(t: Seq<char>) -> bool {
    (exists|i: int| 0 <= i < t.len() && t[i] == '%') && (exists|i: int|
        0 <= i < t.len() && t[i] == '(')
}

fn has_char(v: &Vec<char>, c: char) -> (b: bool)
    ensures
        b == exists|i: int| 0 <= i < v@.len() && v@[i] == c,
{
    match crate::text::find_char(v, c) {
        Some(i) => {
            proof {
                assert(0 <= i < v@.len() && v@[i as int] == c);
            }
            true
        },
        None => false,
    }
}

pub fn check_change_pct_text(t: &str) -> (b: bool)
    ensures
        b == change_pct_text_ok(t@),
{
    let v = crate::text::str_chars(t);
    has_char(&v, '%') && has_char(&v, '(')
}

// ---------------------------------------------------------------------------
// element filters
// ---------------------------------------------------------------------------

/// The element's class attribute contains `sub`.
pub open spec fn class_has(e: ElemModel, sub: Seq<char>) -> bool {
    contains_seq(class_attr(e.attrs), sub)
}

fn check_class_has(info: &crate::dom::ElemInfo, sub: &str) -> (b: bool)
    ensures
        b == class_has(info@, sub@),
{
    let ca = match crate::dom::attr_find(&info.attrs, "class") {
        Some(v) => v,
        None => String::new(),
    };
    proof {
        assert(ca@ == class_attr(info@.attrs));
    }
    crate::text::contains_str(ca.as_str(), sub)
}

/// Some strict ancestor of element `i` has a class containing `sub`
/// (and, when `tag` is non-empty, that ancestor's tag is `tag`).
pub open spec fn has_anc_class(ds: Seq<ElemModel>, i: int, sub: Seq<char>, tag: Seq<char>) -> bool
    decreases i,
{
    if 0 <= i < ds.len() {
        match ds[i].parent {
            Some(p) => if 0 <= p < i {
                (class_has(ds[p], sub) && (tag.len() == 0 || ds[p].tag == tag)) || has_anc_class(
                    ds,
                    p,
                    sub,
                    tag,
                )
            } else {
                false
            },
            None => false,
        }
    } else {
        false
    }
}

fn check_anc_class(dom: &Dom, i: usize, sub: &str, tag: &str) -> (b: bool)
    requires
        dom.wf(),
        i < dom@.len(),
    ensures
        b == has_anc_class(dom@, i as int, sub@, tag@),
{
    let mut j = i;
    loop
        invariant
            dom.wf(),
            j < dom@.len(),
            has_anc_class(dom@, i as int, sub@, tag@) == has_anc_class(
                dom@,
                j as int,
                sub@,
                tag@,
            ),
        decreases j,
    {
        proof {
            assert(dom@[j as int] == dom.nodes@[j as int]@);
        }
        let pj = match dom.nodes[j].parent {
            None => {
                return false;
            },
            Some(p) => p,
        };
        proof {
            assert(dom@[j as int].parent == Some(pj as int));
            assert(pj < j);
            assert(dom@[pj as int] == dom.nodes@[pj as int]@);
        }
        let cls_ok = check_class_has(&dom.nodes[pj], sub);
        let tag_ok = tag.unicode_len() == 0 || crate::text::eq_str(
            dom.nodes[pj].tag.as_str(),
            tag,
        );
        if cls_ok && tag_ok {
            return true;
        }
        j = pj;
    }
}

/// An element eligible for the structured price scan: it matches one
/// of the price-flavoured class, ancestor or attribute patterns, and
/// its trimmed text is numerically plausible.
pub open spec fn price_hit(ds: Seq<ElemModel>, i: int) -> bool {
    &&& 0 <= i < ds.len()
    &&& ({
        let e = ds[i];
        ||| class_has(e, "price"@)
        ||| class_has(e, "Price"@)
        ||| ((e.tag == "span"@ || e.tag == "div"@) && class_has(e, "value"@))
        ||| (e.tag == "span"@ && (has_anc_class(ds, i, "board"@, ""@) || has_anc_class(
            ds,
            i,
            "Board"@,
            ""@,
        )))
        ||| attr_value(e.attrs, "data-field"@) == Some("regularMarketPrice"@)
        ||| class_has(e, "quote"@)
        ||| class_has(e, "Quote"@)
        ||| ((e.tag == "span"@ || e.tag == "div"@) && class_has(e, "last"@))
        ||| ((e.tag == "span"@ || e.tag == "div"@) && class_has(e, "current"@))
    })
    &&& price_text_ok(trim_spec(ds[i].text))
}

/// The broad last-resort price scan: any span or div with plausible
/// numeric text.
pub open spec fn price_fallback_hit(ds: Seq<ElemModel>, i: int) -> bool {
    &&& 0 <= i < ds.len()
    &&& (ds[i].tag == "span"@ || ds[i].tag == "div"@)
    &&& price_text_ok(trim_spec(ds[i].text))
}

/// An element eligible for the absolute-change scan.
pub open spec fn change_abs_hit(ds: Seq<ElemModel>, i: int) -> bool {
    &&& 0 <= i < ds.len()
    &&& class_has(ds[i], "PriceChangeLabel__primary"@)
    &&& change_abs_text_ok(trim_spec(ds[i].text))
}

/// An element eligible for the relative-change scan.
pub open spec fn change_pct_hit(ds: Seq<ElemModel>, i: int) -> bool {
    &&& 0 <= i < ds.len()
    &&& class_has(ds[i], "PriceChangeLabel__secondary"@)
    &&& change_pct_text_ok(trim_spec(ds[i].text))
}

/// The position of the first element with the given tag name.
pub open spec fn find_tag(ds: Seq<ElemModel>, t: Seq<char>) -> Option<int>
    decreases ds.len(),
{
    if ds.len() == 0 {
        None
    } else if ds[0].tag == t {
        Some(0)
    } else {
        match find_tag(ds.drop_first(), t) {
            Some(i) => Some(i + 1),
            None => None,
        }
    }
}

proof fn lemma_find_tag(ds: Seq<ElemModel>, t: Seq<char>, i: int)
    requires
        0 <= i <= ds.len(),
        forall|j: int| 0 <= j < i ==> ds[j].tag != t,
        i < ds.len() ==> ds[i].tag == t,
    ensures
        i < ds.len() ==> find_tag(ds, t) == Some(i),
        i == ds.len() ==> find_tag(ds, t) is None,
    decreases i,
{
    if ds.len() == 0 {
    } else if i == 0 {
    } else {
        lemma_find_tag(ds.drop_first(), t, i - 1);
    }
}

/// A found tag names an element in range.
pub proof fn lemma_find_tag_some(ds: Seq<ElemModel>, t: Seq<char>)
    ensures
        find_tag(ds, t) matches Some(i) ==> 0 <= i < ds.len() && ds[i].tag == t,
    decreases ds.len(),
{
    if ds.len() > 0 && ds[0].tag != t {
        lemma_find_tag_some(ds.drop_first(), t);
    }
}

fn find_tag_elem(dom: &Dom, t: &str) -> (r: Option<usize>)
    ensures
        match r {
            Some(i) => i < dom@.len() && find_tag(dom@, t@) == Some(i as int),
            None => find_tag(dom@, t@) is None,
        },
{
    let n = dom.nodes.len();
    let mut i: usize = 0;
    while i < n
        invariant
            i <= n,
            n == dom@.len(),
            n == dom.nodes@.len(),
            forall|j: int| 0 <= j < i ==> dom@[j].tag != t@,
        decreases n - i,
    {
        proof {
            assert(dom@[i as int] == dom.nodes@[i as int]@);
        }
        if crate::text::eq_str(dom.nodes[i].tag.as_str(), t) {
            proof {
                lemma_find_tag(dom@, t@, i as int);
            }
            return Some(i);
        }
        i = i + 1;
    }
    proof {
        lemma_find_tag(dom@, t@, n as int);
    }
    None
}

/// The base name: the page title up to the first `【`, `(` or `：`,
/// trimmed; empty when the page has no title element.
pub open spec fn base_name_of(ds: Seq<ElemModel>) -> Seq<char> {
    match find_tag(ds, "title"@) {
        Some(i) => trim_spec(
            cut_at_char_spec(cut_at_char_spec(cut_at_char_spec(ds[i].text, '【'), '('), '：'),
        ),
        None => Seq::empty(),
    }
}

/// A heading whose trimmed text is non-empty and contains the base
/// name.
pub open spec fn heading_hit(ds: Seq<ElemModel>, i: int, base: Seq<char>) -> bool {
    &&& 0 <= i < ds.len()
    &&& (ds[i].tag == "h1"@ || ds[i].tag == "h2"@)
    &&& trim_spec(ds[i].text).len() > 0
    &&& contains_seq(trim_spec(ds[i].text), base)
}

// ---------------------------------------------------------------------------
// what a discovery result guarantees
// ---------------------------------------------------------------------------

/// The score of a structured price candidate: a base of 50, raised by
/// a grouping comma and value-like or prominent classes, lowered by
/// classes suggesting a ticker code.
pub open spec fn price_score_spec(e: ElemModel, t: Seq<char>) -> int {
    50 + (if contains_seq(t, ","@) {
        30int
    } else {
        0int
    }) + (if class_has(e, "value"@) {
        20int
    } else {
        0int
    }) + (if class_has(e, "large"@) {
        10int
    } else {
        0int
    }) - (if class_has(e, "code"@) || class_has(e, "symbol"@) {
        40int
    } else {
        0int
    })
}

/// Where a name candidate may come from: the page title (trimmed, at
/// the base tier) or a heading containing the base name (exact match
/// one tier above containment).
#[verifier::opaque]
pub open spec fn name_origin_ok(ds: Seq<ElemModel>, x: CandModel) -> bool {
    &&& x.text.len() > 0
    &&& x.reason.len() > 0
    &&& ((find_tag(ds, "title"@) matches Some(t) && x.text == trim_spec(ds[t].text) && x.score
        == 50) || (exists|e: int|
        heading_hit(ds, e, base_name_of(ds)) && x.text == trim_spec(
            (#[trigger] ds[e]).text,
        ) && x.score == (if x.text == base_name_of(ds) {
            110int
        } else {
            100int
        })))
}

/// Where a price candidate may come from: a structured hit with the
/// structural score, or — only when no structured hit exists at all —
/// a broad-scan element at the last-resort tier.
pub open spec fn price_origin_ok(ds: Seq<ElemModel>, x: CandModel) -> bool {
    &&& price_text_ok(x.text)
    &&& x.reason.len() > 0
    &&& ((exists|e: int|
        price_hit(ds, e) && x.text == trim_spec((#[trigger] ds[e]).text) && x.score
            == price_score_spec(ds[e], x.text)) || ((forall|e: int| !price_hit(ds, e)) && (exists|
        e: int,
    |
        price_fallback_hit(ds, e) && x.text == trim_spec((#[trigger] ds[e]).text) && x.score
            == 10)))
}

/// Where an absolute-change candidate may come from.
pub open spec fn change_abs_origin_ok(ds: Seq<ElemModel>, x: CandModel) -> bool {
    &&& change_abs_text_ok(x.text)
    &&& x.score == 100
    &&& x.reason.len() > 0
    &&& exists|e: int| change_abs_hit(ds, e) && x.text == trim_spec((#[trigger] ds[e]).text)
}

/// Where a relative-change candidate may come from.
pub open spec fn change_pct_origin_ok(ds: Seq<ElemModel>, x: CandModel) -> bool {
    &&& change_pct_text_ok(x.text)
    &&& x.score == 100
    &&& x.reason.len() > 0
    &&& exists|e: int| change_pct_hit(ds, e) && x.text == trim_spec((#[trigger] ds[e]).text)
}

/// The contract of a per-field discovery pass over document `ds`:
/// ranked best-first with distinct trimmed texts; every candidate
/// traces back to an eligible element (or the title) with the score
/// its origin assigns and a non-empty justification; and every
/// eligible element's trimmed text is represented (with the broad
/// fallback filling in for the price only when the structured scan
/// found nothing).
pub open spec fn discovered_ok(ds: Seq<ElemModel>, kind: FieldKind, cs: Seq<CandModel>) -> bool {
    &&& cand_sorted(cs)
    &&& distinct_texts(cs)
    &&& (forall|k: int| 0 <= k < cs.len() ==> is_trimmed((#[trigger] cs[k]).text))
    &&& match kind {
        FieldKind::Name => {
            &&& (forall|k: int| 0 <= k < cs.len() ==> name_origin_ok(ds, #[trigger] cs[k]))
            &&& (base_name_of(ds).len() == 0 ==> cs.len() == 0)
            &&& (base_name_of(ds).len() > 0 ==> ((match find_tag(ds, "title"@) {
                Some(t) => text_present(cs, trim_spec(ds[t].text)),
                None => true,
            }) && (forall|i: int|
                heading_hit(ds, i, base_name_of(ds)) ==> text_present(
                    cs,
                    trim_spec(ds[i].text),
                ))))
        },
        FieldKind::Price => {
            &&& (forall|k: int| 0 <= k < cs.len() ==> price_origin_ok(ds, #[trigger] cs[k]))
            &&& ((exists|i: int| price_hit(ds, i)) ==> (forall|i: int|
                price_hit(ds, i) ==> text_present(cs, trim_spec(ds[i].text))))
            &&& ((forall|i: int| !price_hit(ds, i)) ==> (forall|i: int|
                price_fallback_hit(ds, i) ==> text_present(cs, trim_spec(ds[i].text))))
        },
        FieldKind::ChangeAbs => {
            &&& (forall|k: int|
                0 <= k < cs.len() ==> change_abs_origin_ok(ds, #[trigger] cs[k]))
            &&& (forall|i: int|
                change_abs_hit(ds, i) ==> text_present(cs, trim_spec(ds[i].text)))
        },
        FieldKind::ChangePct => {
            &&& (forall|k: int|
                0 <= k < cs.len() ==> change_pct_origin_ok(ds, #[trigger] cs[k]))
            &&& (forall|i: int|
                change_pct_hit(ds, i) ==> text_present(cs, trim_spec(ds[i].text)))
        },
    }
}

// ---------------------------------------------------------------------------
// the per-field scans
// ---------------------------------------------------------------------------

fn scan_change_abs(dom: &Dom) -> (r: Vec<RankedCandidate>)
    requires
        dom.wf(),
    ensures
        discovered_ok(dom@, FieldKind::ChangeAbs, cand_models(r@)),
{
    let ghost ds = dom@;
    let ghost q = |x: CandModel| is_trimmed(x.text) && change_abs_origin_ok(ds, x);
    let n = dom.nodes.len();
    let mut cands: Vec<RankedCandidate> = Vec::new();
    let mut i: usize = 0;
    while i < n
        invariant
            i <= n,
            n == ds.len(),
            ds == dom@,
            n == dom.nodes@.len(),
            q == (|x: CandModel| is_trimmed(x.text) && change_abs_origin_ok(ds, x)),
            distinct_texts(cand_models(cands@)),
            forall|k: int|
                0 <= k < cand_models(cands@).len() ==> q(#[trigger] cand_models(cands@)[k]),
            forall|j: int|
                0 <= j < i && change_abs_hit(ds, j) ==> text_present(
                    cand_models(cands@),
                    trim_spec(ds[j].text),
                ),
        decreases n - i,
    {
        proof {
            assert(ds[i as int] == dom.nodes@[i as int]@);
        }
        if check_class_has(&dom.nodes[i], "PriceChangeLabel__primary") {
            let t = crate::text::trim_str(dom.nodes[i].text.as_str());
            if check_change_abs_text(t.as_str()) {
                let ghost pre = cand_models(cands@);
                let c = RankedCandidate {
                    text: t,
                    score: 100,
                    reason: "Found in primary change label".to_owned(),
                };
                let ghost cv = c@;
                merge_candidate(&mut cands, c);
                proof {
                    lemma_trim_trimmed(ds[i as int].text);
                    reveal_strlit("Found in primary change label");
                    assert(change_abs_hit(ds, i as int) && cv.text == trim_spec(
                        ds[i as int].text,
                    ));
                    assert(change_abs_origin_ok(ds, cv));
                    lemma_merge_all(pre, cv, q);
                    lemma_merge_distinct(pre, cv);
                    lemma_merge_has_text(pre, cv);
                    assert forall|j: int|
                        0 <= j < i + 1 && change_abs_hit(ds, j) implies text_present(
                        cand_models(cands@),
                        trim_spec(ds[j].text),
                    ) by {
                        if j < i {
                            lemma_merge_keeps_text(pre, cv, trim_spec(ds[j].text));
                        }
                    }
                }
            }
        }
        i = i + 1;
    }
    let ghost flat = cand_models(cands@);
    let r = sort_candidates(cands);
    proof {
        lemma_all_transfer(flat, cand_models(r@), q);
        assert forall|j: int| change_abs_hit(ds, j) implies text_present(
            cand_models(r@),
            trim_spec(ds[j].text),
        ) by {
            lemma_text_transfer(flat, cand_models(r@), trim_spec(ds[j].text));
        }
    }
    r
}

fn scan_change_pct(dom: &Dom) -> (r: Vec<RankedCandidate>)
    requires
        dom.wf(),
    ensures
        discovered_ok(dom@, FieldKind::ChangePct, cand_models(r@)),
{
    let ghost ds = dom@;
    let ghost q = |x: CandModel| is_trimmed(x.text) && change_pct_origin_ok(ds, x);
    let n = dom.nodes.len();
    let mut cands: Vec<RankedCandidate> = Vec::new();
    let mut i: usize = 0;
    while i < n
        invariant
            i <= n,
            n == ds.len(),
            ds == dom@,
            n == dom.nodes@.len(),
            q == (|x: CandModel| is_trimmed(x.text) && change_pct_origin_ok(ds, x)),
            distinct_texts(cand_models(cands@)),
            forall|k: int|
                0 <= k < cand_models(cands@).len() ==> q(#[trigger] cand_models(cands@)[k]),
            forall|j: int|
                0 <= j < i && change_pct_hit(ds, j) ==> text_present(
                    cand_models(cands@),
                    trim_spec(ds[j].text),
                ),
        decreases n - i,
    {
        proof {
            assert(ds[i as int] == dom.nodes@[i as int]@);
        }
        if check_class_has(&dom.nodes[i], "PriceChangeLabel__secondary") {
            let t = crate::text::trim_str(dom.nodes[i].text.as_str());
            if check_change_pct_text(t.as_str()) {
                let ghost pre = cand_models(cands@);
                let c = RankedCandidate {
                    text: t,
                    score: 100,
                    reason: "Found in secondary change label".to_owned(),
                };
                let ghost cv = c@;
                merge_candidate(&mut cands, c);
                proof {
                    lemma_trim_trimmed(ds[i as int].text);
                    reveal_strlit("Found in secondary change label");
                    assert(change_pct_hit(ds, i as int) && cv.text == trim_spec(
                        ds[i as int].text,
                    ));
                    assert(change_pct_origin_ok(ds, cv));
                    lemma_merge_all(pre, cv, q);
                    lemma_merge_distinct(pre, cv);
                    lemma_merge_has_text(pre, cv);
                    assert forall|j: int|
                        0 <= j < i + 1 && change_pct_hit(ds, j) implies text_present(
                        cand_models(cands@),
                        trim_spec(ds[j].text),
                    ) by {
                        if j < i {
                            lemma_merge_keeps_text(pre, cv, trim_spec(ds[j].text));
                        }
                    }
                }
            }
        }
        i = i + 1;
    }
    let ghost flat = cand_models(cands@);
    let r = sort_candidates(cands);
    proof {
        lemma_all_transfer(flat, cand_models(r@), q);
        assert forall|j: int| change_pct_hit(ds, j) implies text_present(
            cand_models(r@),
            trim_spec(ds[j].text),
        ) by {
            lemma_text_transfer(flat, cand_models(r@), trim_spec(ds[j].text));
        }
    }
    r
}

fn scan_price(dom: &Dom) -> (r: Vec<RankedCandidate>)
    requires
        dom.wf(),
    ensures
        discovered_ok(dom@, FieldKind::Price, cand_models(r@)),
{
    let ghost ds = dom@;
    let ghost q = |x: CandModel| is_trimmed(x.text) && price_origin_ok(ds, x);
    let n = dom.nodes.len();
    let mut cands: Vec<RankedCandidate> = Vec::new();
    let mut i: usize = 0;
    while i < n
        invariant
            i <= n,
            n == ds.len(),
            ds == dom@,
            dom.wf(),
            n == dom.nodes@.len(),
            q == (|x: CandModel| is_trimmed(x.text) && price_origin_ok(ds, x)),
            distinct_texts(cand_models(cands@)),
            forall|k: int|
                0 <= k < cand_models(cands@).len() ==> q(#[trigger] cand_models(cands@)[k]),
            forall|j: int|
                0 <= j < i && price_hit(ds, j) ==> text_present(
                    cand_models(cands@),
                    trim_spec(ds[j].text),
                ),
            cand_models(cands@).len() > 0 ==> exists|j: int| price_hit(ds, j),
        decreases n - i,
    {
        proof {
            assert(ds[i as int] == dom.nodes@[i as int]@);
        }
        let is_span = crate::text::eq_str(dom.nodes[i].tag.as_str(), "span");
        let is_div = crate::text::eq_str(dom.nodes[i].tag.as_str(), "div");
        let c1 = check_class_has(&dom.nodes[i], "price") || check_class_has(&dom.nodes[i], "Price");
        let c2 = (is_span || is_div) && check_class_has(&dom.nodes[i], "value");
        let c3 = is_span && (check_anc_class(dom, i, "board", "") || check_anc_class(
            dom,
            i,
            "Board",
            "",
        ));
        let c4 = match crate::dom::attr_find(&dom.nodes[i].attrs, "data-field") {
            Some(v) => crate::text::eq_str(v.as_str(), "regularMarketPrice"),
            None => false,
        };
        let c5 = check_class_has(&dom.nodes[i], "quote") || check_class_has(&dom.nodes[i], "Quote");
        let c6 = (is_span || is_div) && check_class_has(&dom.nodes[i], "last");
        let c7 = (is_span || is_div) && check_class_has(&dom.nodes[i], "current");
        if c1 || c2 || c3 || c4 || c5 || c6 || c7 {
            let t = crate::text::trim_str(dom.nodes[i].text.as_str());
            if check_price_text(t.as_str()) {
                proof {
                    assert(price_hit(ds, i as int));
                }
                let ca = match crate::dom::attr_find(&dom.nodes[i].attrs, "class") {
                    Some(v) => v,
                    None => String::new(),
                };
                proof {
                    assert(ca@ == class_attr(ds[i as int].attrs));
                }
                let has_comma = crate::text::contains_str(t.as_str(), ",");
                let has_value = crate::text::contains_str(ca.as_str(), "value");
                let has_large = crate::text::contains_str(ca.as_str(), "large");
                let code_like = crate::text::contains_str(ca.as_str(), "code")
                    || crate::text::contains_str(ca.as_str(), "symbol");
                let mut score: u32 = 50;
                if has_comma {
                    score = score + 30;
                }
                if has_value {
                    score = score + 20;
                }
                if has_large {
                    score = score + 10;
                }
                if code_like {
                    score = score - 40;
                }
                let mut reason = "Found in element with class: ".to_owned();
                reason.append(ca.as_str());
                let ghost pre = cand_models(cands@);
                let c = RankedCandidate { text: t, score, reason };
                let ghost cv = c@;
                merge_candidate(&mut cands, c);
                proof {
                    lemma_trim_trimmed(ds[i as int].text);
                    reveal_strlit("Found in element with class: ");
                    assert(cv.reason.len() > 0);
                    assert(cv.score == price_score_spec(ds[i as int], cv.text));
                    assert(price_origin_ok(ds, cv));
                    lemma_merge_all(pre, cv, q);
                    lemma_merge_distinct(pre, cv);
                    lemma_merge_has_text(pre, cv);
                    assert forall|j: int|
                        0 <= j < i + 1 && price_hit(ds, j) implies text_present(
                        cand_models(cands@),
                        trim_spec(ds[j].text),
                    ) by {
                        if j < i {
                            lemma_merge_keeps_text(pre, cv, trim_spec(ds[j].text));
                        }
                    }
                }
            }
        }
        i = i + 1;
    }
    if cands.len() == 0 {
        proof {
            assert forall|j: int| !price_hit(ds, j) by {
                if price_hit(ds, j) {
                    assert(text_present(cand_models(cands@), trim_spec(ds[j].text)));
                }
            }
        }
        // broad fallback: any span or div holding a plausible number
        let mut i: usize = 0;
        while i < n
            invariant
                i <= n,
                n == ds.len(),
                ds == dom@,
                n == dom.nodes@.len(),
                q == (|x: CandModel| is_trimmed(x.text) && price_origin_ok(ds, x)),
                forall|j: int| !price_hit(ds, j),
                distinct_texts(cand_models(cands@)),
                forall|k: int|
                    0 <= k < cand_models(cands@).len() ==> q(#[trigger] cand_models(cands@)[k]),
                forall|j: int|
                    0 <= j < i && price_fallback_hit(ds, j) ==> text_present(
                        cand_models(cands@),
                        trim_spec(ds[j].text),
                    ),
            decreases n - i,
        {
            proof {
                assert(ds[i as int] == dom.nodes@[i as int]@);
            }
            let is_span = crate::text::eq_str(dom.nodes[i].tag.as_str(), "span");
            let is_div = crate::text::eq_str(dom.nodes[i].tag.as_str(), "div");
            if is_span || is_div {
                let t = crate::text::trim_str(dom.nodes[i].text.as_str());
                if check_price_text(t.as_str()) {
                    let mut reason = "Fallback: found number in ".to_owned();
                    reason.append(dom.nodes[i].tag.as_str());
                    let ghost pre = cand_models(cands@);
                    let c = RankedCandidate { text: t, score: 10, reason };
                    let ghost cv = c@;
                    merge_candidate(&mut cands, c);
                    proof {
                        lemma_trim_trimmed(ds[i as int].text);
                        reveal_strlit("Fallback: found number in ");
                        assert(cv.reason.len() > 0);
                        assert(price_fallback_hit(ds, i as int) && cv.text == trim_spec(
                            ds[i as int].text,
                        ));
                        assert(price_origin_ok(ds, cv));
                        lemma_merge_all(pre, cv, q);
                        lemma_merge_distinct(pre, cv);
                        lemma_merge_has_text(pre, cv);
                        assert forall|j: int|
                            0 <= j < i + 1 && price_fallback_hit(ds, j) implies text_present(
                            cand_models(cands@),
                            trim_spec(ds[j].text),
                        ) by {
                            if j < i {
                                lemma_merge_keeps_text(pre, cv, trim_spec(ds[j].text));
                            }
                        }
                    }
                }
            }
            i = i + 1;
        }
        let ghost flat = cand_models(cands@);
        let r = sort_candidates(cands);
        proof {
            lemma_all_transfer(flat, cand_models(r@), q);
            assert forall|j: int| price_fallback_hit(ds, j) implies text_present(
                cand_models(r@),
                trim_spec(ds[j].text),
            ) by {
                lemma_text_transfer(flat, cand_models(r@), trim_spec(ds[j].text));
            }
        }
        r
    } else {
        proof {
            assert(cand_models(cands@).len() > 0);
        }
        let ghost flat = cand_models(cands@);
        let r = sort_candidates(cands);
        proof {
            lemma_all_transfer(flat, cand_models(r@), q);
            assert forall|j: int| price_hit(ds, j) implies text_present(
                cand_models(r@),
                trim_spec(ds[j].text),
            ) by {
                lemma_text_transfer(flat, cand_models(r@), trim_spec(ds[j].text));
            }
            // the structured scan found something, so no fallback is owed
            let w = choose|j: int| price_hit(ds, j);
            assert(!(forall|j: int| !price_hit(ds, j)));
        }
        r
    }
}

fn offer_name(cands: &mut Vec<RankedCandidate>, c: RankedCandidate, Ghost(ds): Ghost<
    Seq<ElemModel>,
>)
    requires
        is_trimmed(c@.text),
        name_origin_ok(ds, c@),
        distinct_texts(cand_models(old(cands)@)),
        forall|k: int|
            0 <= k < cand_models(old(cands)@).len() ==> is_trimmed(
                (#[trigger] cand_models(old(cands)@)[k]).text,
            ) && name_origin_ok(ds, cand_models(old(cands)@)[k]),
    ensures
        distinct_texts(cand_models(final(cands)@)),
        forall|k: int|
            0 <= k < cand_models(final(cands)@).len() ==> is_trimmed(
                (#[trigger] cand_models(final(cands)@)[k]).text,
            ) && name_origin_ok(ds, cand_models(final(cands)@)[k]),
        text_present(cand_models(final(cands)@), c@.text),
        forall|t: Seq<char>|
            #[trigger] text_present(cand_models(old(cands)@), t) ==> text_present(
                cand_models(final(cands)@),
                t,
            ),
{
    let ghost pre = cand_models(cands@);
    let ghost cv = c@;
    merge_candidate(cands, c);
    proof {
        lemma_merge_all(pre, cv, |x: CandModel| is_trimmed(x.text) && name_origin_ok(ds, x));
        lemma_merge_distinct(pre, cv);
        lemma_merge_has_text(pre, cv);
        assert forall|t: Seq<char>| #[trigger] text_present(pre, t) implies text_present(
            cand_models(cands@),
            t,
        ) by {
            lemma_merge_keeps_text(pre, cv, t);
        }
    }
}

fn scan_name(dom: &Dom) -> (r: Vec<RankedCandidate>)
    requires
        dom.wf(),
    ensures
        discovered_ok(dom@, FieldKind::Name, cand_models(r@)),
{
    let ghost ds = dom@;
    let ti = match find_tag_elem(dom, "title") {
        Some(ti) => ti,
        None => {
            let r: Vec<RankedCandidate> = Vec::new();
            return r;
        },
    };
    proof {
        assert(ds[ti as int] == dom.nodes@[ti as int]@);
        assert(find_tag(ds, "title"@) == Some(ti as int));
    }
    let cut1 = crate::text::cut_at_char(dom.nodes[ti].text.as_str(), '【');
    let cut2 = crate::text::cut_at_char(cut1.as_str(), '(');
    let cut3 = crate::text::cut_at_char(cut2.as_str(), '：');
    let base = crate::text::trim_str(cut3.as_str());
    proof {
        assert(base@ == base_name_of(ds));
    }
    if base.unicode_len() == 0 {
        let r: Vec<RankedCandidate> = Vec::new();
        return r;
    }
    proof {
        // a non-empty base name means the title text itself trims to
        // something non-empty: the base's first character is a
        // non-space character of the title
        let tt0 = ds[ti as int].text;
        let c1 = crate::text::cut_at_char_spec(tt0, '【');
        let c2 = crate::text::cut_at_char_spec(c1, '(');
        let c3 = crate::text::cut_at_char_spec(c2, '：');
        crate::text::lemma_trim_substring(c3);
        let a = choose|a: int| crate::text::matches_at(c3, trim_spec(c3), a);
        assert(c3.subrange(a, a + trim_spec(c3).len() as int) == trim_spec(c3));
        assert(c3.subrange(a, a + trim_spec(c3).len() as int)[0] == c3[a]);
        crate::text::lemma_trim_head_char(c3);
        assert(!crate::text::is_space_char(c3[a]));
        crate::text::lemma_cut_prefix(c2, '：');
        let m3 = choose|m: int| 0 <= m <= c2.len() && c3 == c2.subrange(0, m);
        assert(c2.subrange(0, m3)[a] == c2[a]);
        crate::text::lemma_cut_prefix(c1, '(');
        let m2 = choose|m: int| 0 <= m <= c1.len() && c2 == c1.subrange(0, m);
        assert(c1.subrange(0, m2)[a] == c1[a]);
        crate::text::lemma_cut_prefix(tt0, '【');
        let m1 = choose|m: int| 0 <= m <= tt0.len() && c1 == tt0.subrange(0, m);
        assert(tt0.subrange(0, m1)[a] == tt0[a]);
        crate::text::lemma_trim_nonempty(tt0, a);
    }
    let mut cands: Vec<RankedCandidate> = Vec::new();
    let title_trim = crate::text::trim_str(dom.nodes[ti].text.as_str());
    let ghost tt = trim_spec(ds[ti as int].text);
    let c0 = RankedCandidate {
        text: title_trim,
        score: 50,
        reason: "Original <title> text".to_owned(),
    };
    proof {
        lemma_trim_trimmed(ds[ti as int].text);
        reveal_strlit("Original <title> text");
        reveal(name_origin_ok);
        assert(name_origin_ok(ds, c0@));
    }
    offer_name(&mut cands, c0, Ghost(ds));
    let n = dom.nodes.len();
    let mut i: usize = 0;
    while i < n
        invariant
            i <= n,
            n == ds.len(),
            ds == dom@,
            n == dom.nodes@.len(),
            base@ == base_name_of(ds),
            base@.len() > 0,
            tt == trim_spec(ds[ti as int].text),
            ti < n,
            find_tag(ds, "title"@) == Some(ti as int),
            distinct_texts(cand_models(cands@)),
            forall|k: int|
                0 <= k < cand_models(cands@).len() ==> is_trimmed(
                    (#[trigger] cand_models(cands@)[k]).text,
                ) && name_origin_ok(ds, cand_models(cands@)[k]),
            text_present(cand_models(cands@), tt),
            forall|j: int|
                0 <= j < i && heading_hit(ds, j, base@) ==> text_present(
                    cand_models(cands@),
                    trim_spec(ds[j].text),
                ),
        decreases n - i,
    {
        proof {
            assert(ds[i as int] == dom.nodes@[i as int]@);
        }
        let is_h1 = crate::text::eq_str(dom.nodes[i].tag.as_str(), "h1");
        let is_h2 = crate::text::eq_str(dom.nodes[i].tag.as_str(), "h2");
        if is_h1 || is_h2 {
            let t = crate::text::trim_str(dom.nodes[i].text.as_str());
            if t.unicode_len() > 0 {
                let exact = crate::text::eq_str(t.as_str(), base.as_str());
                let within = if exact {
                    true
                } else {
                    crate::text::contains_str(t.as_str(), base.as_str())
                };
                proof {
                    if exact {
                        assert(t@.subrange(0, base@.len() as int) =~= base@);
                        assert(crate::text::matches_at(t@, base@, 0));
                    }
                }
                if within {
                    let mut reason = if exact {
                        "Exact match in <".to_owned()
                    } else {
                        "Contains base name in <".to_owned()
                    };
                    reason.append(dom.nodes[i].tag.as_str());
                    reason.append(">");
                    let c = RankedCandidate {
                        text: t,
                        score: if exact {
                            110
                        } else {
                            100
                        },
                        reason,
                    };
                    proof {
                        lemma_trim_trimmed(ds[i as int].text);
                        reveal_strlit("Exact match in <");
                        reveal_strlit("Contains base name in <");
                        assert(c@.reason.len() > 0);
                        assert(heading_hit(ds, i as int, base@) && c@.text == trim_spec(
                            ds[i as int].text,
                        ));
                        reveal(name_origin_ok);
                        assert(name_origin_ok(ds, c@));
                    }
                    let ghost pre = cand_models(cands@);
                    offer_name(&mut cands, c, Ghost(ds));
                    proof {
                        assert forall|j: int|
                            0 <= j < i + 1 && heading_hit(ds, j, base@) implies text_present(
                            cand_models(cands@),
                            trim_spec(ds[j].text),
                        ) by {
                            if j < i {
                                assert(text_present(pre, trim_spec(ds[j].text)));
                            }
                        }
                    }
                }
            }
        }
        i = i + 1;
    }
    let ghost flat = cand_models(cands@);
    let r = sort_candidates(cands);
    proof {
        lemma_all_transfer(
            flat,
            cand_models(r@),
            |x: CandModel| is_trimmed(x.text) && name_origin_ok(ds, x),
        );
        lemma_text_transfer(flat, cand_models(r@), tt);
        assert forall|j: int| heading_hit(ds, j, base@) implies text_present(
            cand_models(r@),
            trim_spec(ds[j].text),
        ) by {
            lemma_text_transfer(flat, cand_models(r@), trim_spec(ds[j].text));
        }
    }
    r
}

/// Discovers ranked candidates for one field of the document.
pub fn discover(dom: &Dom, kind: FieldKind) -> (r: Vec<RankedCandidate>)
    requires
        dom.wf(),
    ensures
        discovered_ok(dom@, kind, cand_models(r@)),
{
    match kind {
        FieldKind::Name => scan_name(dom),
        FieldKind::Price => scan_price(dom),
        FieldKind::ChangeAbs => scan_change_abs(dom),
        FieldKind::ChangePct => scan_change_pct(dom),
    }
}

// ---------------------------------------------------------------------------
// whole-page discovery
// ---------------------------------------------------------------------------

/// The four ranked candidate lists for one requested symbol, plus the
/// source and the symbol they came from.
pub struct DiscoveredData {
    pub code: String,
    pub url: String,
    pub name_candidates: Vec<RankedCandidate>,
    pub price_candidates: Vec<RankedCandidate>,
    pub change_abs_candidates: Vec<RankedCandidate>,
    pub change_pct_candidates: Vec<RankedCandidate>,
}

/// The quote page for a symbol.
pub open spec fn quote_url_spec(code: Seq<char>) -> Seq<char> {
    "https://finance.yahoo.co.jp/quote/"@ + code
}

pub fn quote_url(code: &str) -> (r: String)
    ensures
        r@ == quote_url_spec(code@),
{
    let mut s = "https://finance.yahoo.co.jp/quote/".to_owned();
    s.append(code);
    s
}

/// Runs all four field discoveries over a quote page.
pub fn discover_quote_data(html: &str, code: &str) -> (r: DiscoveredData)
    ensures
        r.code@ == code@,
        r.url@ == quote_url_spec(code@),
        discovered_ok(dom_model(html@), FieldKind::Name, cand_models(r.name_candidates@)),
        discovered_ok(dom_model(html@), FieldKind::Price, cand_models(r.price_candidates@)),
        discovered_ok(dom_model(html@), FieldKind::ChangeAbs, cand_models(r.change_abs_candidates@)),
        discovered_ok(dom_model(html@), FieldKind::ChangePct, cand_models(r.change_pct_candidates@)),
{
    let dom = parse_dom(html);
    DiscoveredData {
        code: code.to_owned(),
        url: quote_url(code),
        name_candidates: discover(&dom, FieldKind::Name),
        price_candidates: discover(&dom, FieldKind::Price),
        change_abs_candidates: discover(&dom, FieldKind::ChangeAbs),
        change_pct_candidates: discover(&dom, FieldKind::ChangePct),
    }
}

// ---------------------------------------------------------------------------
// index pages: the embedded state comes first
// ---------------------------------------------------------------------------

pub open spec fn title_path() -> Seq<Seq<char>> {
    seq!["pageInfo"@, "title"@]
}

pub open spec fn price_path() -> Seq<Seq<char>> {
    seq!["priceBoard"@, "price"@]
}

pub open spec fn change_path() -> Seq<Seq<char>> {
    seq!["priceBoard"@, "change"@]
}

pub open spec fn change_pct_path() -> Seq<Seq<char>> {
    seq!["priceBoard"@, "changePct"@]
}

/// The page name carried by the embedded state: its title up to the
/// first " - ", trimmed; empty when the state has no title.
pub open spec fn json_title_clean(cap: Seq<char>) -> Seq<char> {
    match crate::backend::json_str_at(cap, title_path()) {
        Some(t) => trim_spec(cut_at_sub_spec(t, " - "@)),
        None => Seq::empty(),
    }
}

/// The text begins with an explicit sign.
pub open spec fn signed_text(t: Seq<char>) -> bool {
    t.len() > 0 && (t[0] == '+' || t[0] == '-')
}

/// The embedded state yields no name: no capture, no title string, or
/// one that cleans to nothing.
pub open spec fn state_name_absent(h: Seq<char>) -> bool {
    match state_capture(h) {
        Some(cap) => json_title_clean(cap).len() == 0,
        None => true,
    }
}

/// The embedded state yields no string at the given key path.
pub open spec fn state_field_absent(h: Seq<char>, path: Seq<Seq<char>>) -> bool {
    match state_capture(h) {
        Some(cap) => crate::backend::json_str_at(cap, path) is None,
        None => true,
    }
}

/// The name the title fallback would produce: the first title
/// element's text cut at " - ", trimmed.
pub open spec fn index_title_name(ds: Seq<ElemModel>) -> Seq<char> {
    match find_tag(ds, "title"@) {
        Some(t) => trim_spec(cut_at_sub_spec(ds[t].text, " - "@)),
        None => Seq::empty(),
    }
}

/// The name the heading fallback would produce: the first h1's text,
/// trimmed.
pub open spec fn index_h1_name(ds: Seq<ElemModel>) -> Seq<char> {
    match find_tag(ds, "h1"@) {
        Some(t) => trim_spec(ds[t].text),
        None => Seq::empty(),
    }
}

/// An element eligible for the index price fallback: a styled-number
/// span inside the price block, unsigned and numerically plausible.
pub open spec fn index_price_hit(ds: Seq<ElemModel>, i: int) -> bool {
    &&& 0 <= i < ds.len()
    &&& ds[i].tag == "span"@
    &&& class_has(ds[i], "_StyledNumber__value"@)
    &&& has_anc_class(ds, i, "_CommonPriceBoard__priceBlock"@, "div"@)
    &&& !signed_text(trim_spec(ds[i].text))
    &&& is_nonneg_decimal(remove_char_spec(trim_spec(ds[i].text), ','))
}

/// The broader index price fallback: any span or div inside the price
/// information block holding an unsigned, percent-free number.
pub open spec fn index_price_broad_hit(ds: Seq<ElemModel>, i: int) -> bool {
    &&& 0 <= i < ds.len()
    &&& (ds[i].tag == "span"@ || ds[i].tag == "div"@)
    &&& has_anc_class(ds, i, "_BasePriceBoard__priceInformation"@, "div"@)
    &&& (exists|k: int|
        0 <= k < trim_spec(ds[i].text).len() && is_digit_char(trim_spec(ds[i].text)[k]))
    &&& !signed_text(trim_spec(ds[i].text))
    &&& !(exists|k: int|
        0 <= k < trim_spec(ds[i].text).len() && trim_spec(ds[i].text)[k] == '%')
    &&& is_nonneg_decimal(remove_char_spec(trim_spec(ds[i].text), ','))
}

/// An element eligible for the index absolute-change fallback: a
/// signed styled-number span inside the primary change label.
pub open spec fn index_abs_hit(ds: Seq<ElemModel>, i: int) -> bool {
    &&& 0 <= i < ds.len()
    &&& ds[i].tag == "span"@
    &&& class_has(ds[i], "_StyledNumber__value"@)
    &&& has_anc_class(ds, i, "_PriceChangeLabel__primary"@, "span"@)
    &&& signed_text(trim_spec(ds[i].text))
}

/// An element eligible for the index relative-change fallback: a
/// non-blank styled-number span inside the secondary change label.
pub open spec fn index_pct_hit(ds: Seq<ElemModel>, i: int) -> bool {
    &&& 0 <= i < ds.len()
    &&& ds[i].tag == "span"@
    &&& class_has(ds[i], "_StyledNumber__value"@)
    &&& has_anc_class(ds, i, "_PriceChangeLabel__secondary"@, "span"@)
    &&& trim_spec(ds[i].text).len() > 0
}

/// Where an index price fallback candidate may come from: a price
/// block hit at 90, or — only when no such hit exists — a broader
/// block hit at 70.
pub open spec fn index_price_origin_ok(ds: Seq<ElemModel>, x: CandModel) -> bool {
    &&& x.reason.len() > 0
    &&& ((exists|e: int|
        index_price_hit(ds, e) && x.text == trim_spec((#[trigger] ds[e]).text) && x.score == 90)
        || ((forall|e: int| !index_price_hit(ds, e)) && (exists|e: int|
        index_price_broad_hit(ds, e) && x.text == trim_spec((#[trigger] ds[e]).text) && x.score
            == 70)))
}

/// Where an index absolute-change fallback candidate may come from.
pub open spec fn index_abs_origin_ok(ds: Seq<ElemModel>, x: CandModel) -> bool {
    &&& x.reason.len() > 0
    &&& exists|e: int|
        index_abs_hit(ds, e) && x.text == trim_spec((#[trigger] ds[e]).text) && x.score == 90
}

/// Where an index relative-change fallback candidate may come from.
pub open spec fn index_pct_origin_ok(ds: Seq<ElemModel>, x: CandModel) -> bool {
    &&& x.reason.len() > 0
    &&& exists|e: int|
        index_pct_hit(ds, e) && x.text == trim_spec((#[trigger] ds[e]).text) && x.score == 90
}

/// The fallback led this field: a single candidate with the given
/// text and score.
pub open spec fn sole_entry(cs: Seq<CandModel>, t: Seq<char>, score: int) -> bool {
    cs.len() == 1 && cs[0].text == t && cs[0].score == score
}

/// The embedded state led this field: its value stands alone at the
/// top of the ranking with full confidence.
pub open spec fn json_led(cs: Seq<CandModel>, t: Seq<char>) -> bool {
    cs.len() == 1 && cs[0].text == t && cs[0].score == 100
}

proof fn lemma_singleton_rank(a: Seq<CandModel>, b: Seq<CandModel>)
    requires
        a.len() == 1,
        b.len() == 1,
        a.to_multiset() == b.to_multiset(),
    ensures
        b[0] == a[0],
{
    broadcast use vstd::seq_lib::group_to_multiset_ensures;
    broadcast use vstd::multiset::group_multiset_axioms;

    assert(b.contains(b[0]));
    vstd::seq_lib::to_multiset_contains(b, b[0]);
    vstd::seq_lib::to_multiset_contains(a, b[0]);
    let j = choose|j: int| 0 <= j < a.len() && a[j] == b[0];
}

fn merge_simple(cands: &mut Vec<RankedCandidate>, text: String, score: u32, reason: &str)
    ensures
        cand_models(final(cands)@) == merge_spec(
            cand_models(old(cands)@),
            CandModel { text: text@, score: score as int, reason: reason@ },
        ),
        text_present(cand_models(final(cands)@), text@),
{
    let c = RankedCandidate { text, score, reason: reason.to_owned() };
    let ghost pre = cand_models(cands@);
    let ghost cv = c@;
    merge_candidate(cands, c);
    proof {
        lemma_merge_has_text(pre, cv);
    }
}

fn index_price_fallback(dom: &Dom) -> (r: Vec<RankedCandidate>)
    requires
        dom.wf(),
    ensures
        distinct_texts(cand_models(r@)),
        forall|k: int|
            0 <= k < cand_models(r@).len() ==> index_price_origin_ok(
                dom@,
                #[trigger] cand_models(r@)[k],
            ),
        (exists|i: int| index_price_hit(dom@, i)) ==> (forall|i: int|
            index_price_hit(dom@, i) ==> text_present(cand_models(r@), trim_spec(dom@[i].text))),
        (forall|i: int| !index_price_hit(dom@, i)) ==> (forall|i: int|
            index_price_broad_hit(dom@, i) ==> text_present(
                cand_models(r@),
                trim_spec(dom@[i].text),
            )),
{
    let ghost ds = dom@;
    let ghost q = |x: CandModel| index_price_origin_ok(ds, x);
    let n = dom.nodes.len();
    let mut cands: Vec<RankedCandidate> = Vec::new();
    let mut i: usize = 0;
    while i < n
        invariant
            i <= n,
            n == ds.len(),
            ds == dom@,
            dom.wf(),
            n == dom.nodes@.len(),
            q == (|x: CandModel| index_price_origin_ok(ds, x)),
            distinct_texts(cand_models(cands@)),
            forall|k: int|
                0 <= k < cand_models(cands@).len() ==> q(#[trigger] cand_models(cands@)[k]),
            forall|j: int|
                0 <= j < i && index_price_hit(ds, j) ==> text_present(
                    cand_models(cands@),
                    trim_spec(ds[j].text),
                ),
            cand_models(cands@).len() > 0 ==> exists|j: int| index_price_hit(ds, j),
        decreases n - i,
    {
        proof {
            assert(ds[i as int] == dom.nodes@[i as int]@);
        }
        if crate::text::eq_str(dom.nodes[i].tag.as_str(), "span") && check_class_has(
            &dom.nodes[i],
            "_StyledNumber__value",
        ) && check_anc_class(dom, i, "_CommonPriceBoard__priceBlock", "div") {
            let t = crate::text::trim_str(dom.nodes[i].text.as_str());
            let signed = crate::text::starts_with_char(t.as_str(), '+')
                || crate::text::starts_with_char(t.as_str(), '-');
            if !signed {
                let tv = crate::text::str_chars(t.as_str());
                let stripped = crate::text::remove_char(&tv, ',');
                if crate::text::check_nonneg_decimal(&stripped) {
                    proof {
                        assert(index_price_hit(ds, i as int));
                    }
                    let ghost pre = cand_models(cands@);
                    let c = RankedCandidate {
                        text: t,
                        score: 90,
                        reason: "Found in _CommonPriceBoard__priceBlock (fallback)".to_owned(),
                    };
                    let ghost cv = c@;
                    merge_candidate(&mut cands, c);
                    proof {
                        reveal_strlit("Found in _CommonPriceBoard__priceBlock (fallback)");
                        assert(index_price_origin_ok(ds, cv));
                        lemma_merge_all(pre, cv, q);
                        lemma_merge_distinct(pre, cv);
                        lemma_merge_has_text(pre, cv);
                        assert forall|j: int|
                            0 <= j < i + 1 && index_price_hit(ds, j) implies text_present(
                            cand_models(cands@),
                            trim_spec(ds[j].text),
                        ) by {
                            if j < i {
                                lemma_merge_keeps_text(pre, cv, trim_spec(ds[j].text));
                            }
                        }
                    }
                }
            }
        }
        i = i + 1;
    }
    if cands.len() == 0 {
        proof {
            assert forall|j: int| !index_price_hit(ds, j) by {
                if index_price_hit(ds, j) {
                    assert(text_present(cand_models(cands@), trim_spec(ds[j].text)));
                }
            }
        }
        let mut i: usize = 0;
        while i < n
            invariant
                i <= n,
                n == ds.len(),
                ds == dom@,
                dom.wf(),
                n == dom.nodes@.len(),
                q == (|x: CandModel| index_price_origin_ok(ds, x)),
                forall|j: int| !index_price_hit(ds, j),
                distinct_texts(cand_models(cands@)),
                forall|k: int|
                    0 <= k < cand_models(cands@).len() ==> q(#[trigger] cand_models(cands@)[k]),
                forall|j: int|
                    0 <= j < i && index_price_broad_hit(ds, j) ==> text_present(
                        cand_models(cands@),
                        trim_spec(ds[j].text),
                    ),
            decreases n - i,
        {
            proof {
                assert(ds[i as int] == dom.nodes@[i as int]@);
            }
            let spanish = crate::text::eq_str(dom.nodes[i].tag.as_str(), "span")
                || crate::text::eq_str(dom.nodes[i].tag.as_str(), "div");
            if spanish && check_anc_class(dom, i, "_BasePriceBoard__priceInformation", "div") {
                let t = crate::text::trim_str(dom.nodes[i].text.as_str());
                let tv = crate::text::str_chars(t.as_str());
                let signed = crate::text::starts_with_char(t.as_str(), '+')
                    || crate::text::starts_with_char(t.as_str(), '-');
                if crate::text::has_digit(&tv) && !signed && !has_char(&tv, '%') {
                    let stripped = crate::text::remove_char(&tv, ',');
                    if crate::text::check_nonneg_decimal(&stripped) {
                        proof {
                            let tt = trim_spec(ds[i as int].text);
                            assert(tv@ == tt);
                            let kd = choose|k: int|
                                0 <= k < tv@.len() && is_digit_char(tv@[k]);
                            assert(is_digit_char(tt[kd]));
                            if exists|k: int| 0 <= k < tt.len() && tt[k] == '%' {
                                let kp = choose|k: int| 0 <= k < tt.len() && tt[k] == '%';
                                assert(tv@[kp] == '%');
                                assert(false);
                            }
                            assert(index_price_broad_hit(ds, i as int));
                        }
                        let ghost pre = cand_models(cands@);
                        let c = RankedCandidate {
                            text: t,
                            score: 70,
                            reason: "Broader fallback in _BasePriceBoard__priceInformation".to_owned(),
                        };
                        let ghost cv = c@;
                        merge_candidate(&mut cands, c);
                        proof {
                            reveal_strlit("Broader fallback in _BasePriceBoard__priceInformation");
                            assert(index_price_origin_ok(ds, cv));
                            lemma_merge_all(pre, cv, q);
                            lemma_merge_distinct(pre, cv);
                            lemma_merge_has_text(pre, cv);
                            assert forall|j: int|
                                0 <= j < i + 1 && index_price_broad_hit(ds, j) implies text_present(
                                cand_models(cands@),
                                trim_spec(ds[j].text),
                            ) by {
                                if j < i {
                                    lemma_merge_keeps_text(pre, cv, trim_spec(ds[j].text));
                                }
                            }
                        }
                    }
                }
            }
            i = i + 1;
        }
        cands
    } else {
        proof {
            let w = choose|j: int| index_price_hit(ds, j);
            assert(!(forall|j: int| !index_price_hit(ds, j)));
        }
        cands
    }
}

fn index_abs_fallback(dom: &Dom) -> (r: Vec<RankedCandidate>)
    requires
        dom.wf(),
    ensures
        distinct_texts(cand_models(r@)),
        forall|k: int|
            0 <= k < cand_models(r@).len() ==> index_abs_origin_ok(
                dom@,
                #[trigger] cand_models(r@)[k],
            ),
        forall|i: int|
            index_abs_hit(dom@, i) ==> text_present(cand_models(r@), trim_spec(dom@[i].text)),
{
    let ghost ds = dom@;
    let ghost q = |x: CandModel| index_abs_origin_ok(ds, x);
    let n = dom.nodes.len();
    let mut cands: Vec<RankedCandidate> = Vec::new();
    let mut i: usize = 0;
    while i < n
        invariant
            i <= n,
            n == ds.len(),
            ds == dom@,
            dom.wf(),
            n == dom.nodes@.len(),
            q == (|x: CandModel| index_abs_origin_ok(ds, x)),
            distinct_texts(cand_models(cands@)),
            forall|k: int|
                0 <= k < cand_models(cands@).len() ==> q(#[trigger] cand_models(cands@)[k]),
            forall|j: int|
                0 <= j < i && index_abs_hit(ds, j) ==> text_present(
                    cand_models(cands@),
                    trim_spec(ds[j].text),
                ),
        decreases n - i,
    {
        proof {
            assert(ds[i as int] == dom.nodes@[i as int]@);
        }
        if crate::text::eq_str(dom.nodes[i].tag.as_str(), "span") && check_class_has(
            &dom.nodes[i],
            "_StyledNumber__value",
        ) && check_anc_class(dom, i, "_PriceChangeLabel__primary", "span") {
            let t = crate::text::trim_str(dom.nodes[i].text.as_str());
            let signed = crate::text::starts_with_char(t.as_str(), '+')
                || crate::text::starts_with_char(t.as_str(), '-');
            if signed {
                proof {
                    assert(index_abs_hit(ds, i as int));
                }
                let ghost pre = cand_models(cands@);
                let c = RankedCandidate {
                    text: t,
                    score: 90,
                    reason: "Found in _PriceChangeLabel__primary (fallback)".to_owned(),
                };
                let ghost cv = c@;
                merge_candidate(&mut cands, c);
                proof {
                    reveal_strlit("Found in _PriceChangeLabel__primary (fallback)");
                    assert(index_abs_origin_ok(ds, cv));
                    lemma_merge_all(pre, cv, q);
                    lemma_merge_distinct(pre, cv);
                    lemma_merge_has_text(pre, cv);
                    assert forall|j: int|
                        0 <= j < i + 1 && index_abs_hit(ds, j) implies text_present(
                        cand_models(cands@),
                        trim_spec(ds[j].text),
                    ) by {
                        if j < i {
                            lemma_merge_keeps_text(pre, cv, trim_spec(ds[j].text));
                        }
                    }
                }
            }
        }
        i = i + 1;
    }
    cands
}

fn index_pct_fallback(dom: &Dom) -> (r: Vec<RankedCandidate>)
    requires
        dom.wf(),
    ensures
        distinct_texts(cand_models(r@)),
        forall|k: int|
            0 <= k < cand_models(r@).len() ==> index_pct_origin_ok(
                dom@,
                #[trigger] cand_models(r@)[k],
            ),
        forall|i: int|
            index_pct_hit(dom@, i) ==> text_present(cand_models(r@), trim_spec(dom@[i].text)),
{
    let ghost ds = dom@;
    let ghost q = |x: CandModel| index_pct_origin_ok(ds, x);
    let n = dom.nodes.len();
    let mut cands: Vec<RankedCandidate> = Vec::new();
    let mut i: usize = 0;
    while i < n
        invariant
            i <= n,
            n == ds.len(),
            ds == dom@,
            dom.wf(),
            n == dom.nodes@.len(),
            q == (|x: CandModel| index_pct_origin_ok(ds, x)),
            distinct_texts(cand_models(cands@)),
            forall|k: int|
                0 <= k < cand_models(cands@).len() ==> q(#[trigger] cand_models(cands@)[k]),
            forall|j: int|
                0 <= j < i && index_pct_hit(ds, j) ==> text_present(
                    cand_models(cands@),
                    trim_spec(ds[j].text),
                ),
        decreases n - i,
    {
        proof {
            assert(ds[i as int] == dom.nodes@[i as int]@);
        }
        if crate::text::eq_str(dom.nodes[i].tag.as_str(), "span") && check_class_has(
            &dom.nodes[i],
            "_StyledNumber__value",
        ) && check_anc_class(dom, i, "_PriceChangeLabel__secondary", "span") {
            let t = crate::text::trim_str(dom.nodes[i].text.as_str());
            if t.unicode_len() > 0 {
                proof {
                    assert(index_pct_hit(ds, i as int));
                }
                let ghost pre = cand_models(cands@);
                let c = RankedCandidate {
                    text: t,
                    score: 90,
                    reason: "Found in _PriceChangeLabel__secondary (fallback)".to_owned(),
                };
                let ghost cv = c@;
                merge_candidate(&mut cands, c);
                proof {
                    reveal_strlit("Found in _PriceChangeLabel__secondary (fallback)");
                    assert(index_pct_origin_ok(ds, cv));
                    lemma_merge_all(pre, cv, q);
                    lemma_merge_distinct(pre, cv);
                    lemma_merge_has_text(pre, cv);
                    assert forall|j: int|
                        0 <= j < i + 1 && index_pct_hit(ds, j) implies text_present(
                        cand_models(cands@),
                        trim_spec(ds[j].text),
                    ) by {
                        if j < i {
                            lemma_merge_keeps_text(pre, cv, trim_spec(ds[j].text));
                        }
                    }
                }
            }
        }
        i = i + 1;
    }
    cands
}

/// Discovery for an index page: the embedded state object supplies
/// the fields when it is present and parsable, and DOM heuristics
/// fill in per field otherwise. Each returned list is ranked
/// best-first; whatever the embedded state supplied is represented.
pub fn discover_index_data(html: &str, code: &str) -> (r: DiscoveredData)
    ensures
        r.code@ == code@,
        r.url@ == quote_url_spec(code@),
        cand_sorted(cand_models(r.name_candidates@)),
        cand_sorted(cand_models(r.price_candidates@)),
        cand_sorted(cand_models(r.change_abs_candidates@)),
        cand_sorted(cand_models(r.change_pct_candidates@)),
        (state_capture(html@) matches Some(cap) ==> ((json_title_clean(cap).len() > 0
            ==> json_led(cand_models(r.name_candidates@), json_title_clean(cap))) && (
        crate::backend::json_str_at(cap, price_path()) matches Some(v) ==> json_led(
            cand_models(r.price_candidates@),
            trim_spec(v),
        )) && (crate::backend::json_str_at(cap, change_path()) matches Some(v) ==> json_led(
            cand_models(r.change_abs_candidates@),
            trim_spec(v),
        )) && (crate::backend::json_str_at(cap, change_pct_path()) matches Some(v) ==> json_led(
            cand_models(r.change_pct_candidates@),
            trim_spec(v),
        )))),
        state_name_absent(html@) ==> ({
            let dm = dom_model(html@);
            &&& (index_title_name(dm).len() > 0 ==> sole_entry(
                cand_models(r.name_candidates@),
                index_title_name(dm),
                80,
            ))
            &&& (index_title_name(dm).len() == 0 && index_h1_name(dm).len() > 0 ==> sole_entry(
                cand_models(r.name_candidates@),
                index_h1_name(dm),
                70,
            ))
            &&& (index_title_name(dm).len() == 0 && index_h1_name(dm).len() == 0 ==> cand_models(
                r.name_candidates@,
            ).len() == 0)
        }),
        state_field_absent(html@, price_path()) ==> ({
            let dm = dom_model(html@);
            &&& (forall|k: int|
                0 <= k < cand_models(r.price_candidates@).len() ==> index_price_origin_ok(
                    dm,
                    #[trigger] cand_models(r.price_candidates@)[k],
                ))
            &&& ((exists|i: int| index_price_hit(dm, i)) ==> (forall|i: int|
                index_price_hit(dm, i) ==> text_present(
                    cand_models(r.price_candidates@),
                    trim_spec(dm[i].text),
                )))
            &&& ((forall|i: int| !index_price_hit(dm, i)) ==> (forall|i: int|
                index_price_broad_hit(dm, i) ==> text_present(
                    cand_models(r.price_candidates@),
                    trim_spec(dm[i].text),
                )))
        }),
        state_field_absent(html@, change_path()) ==> ({
            let dm = dom_model(html@);
            &&& (forall|k: int|
                0 <= k < cand_models(r.change_abs_candidates@).len() ==> index_abs_origin_ok(
                    dm,
                    #[trigger] cand_models(r.change_abs_candidates@)[k],
                ))
            &&& (forall|i: int|
                index_abs_hit(dm, i) ==> text_present(
                    cand_models(r.change_abs_candidates@),
                    trim_spec(dm[i].text),
                ))
        }),
        state_field_absent(html@, change_pct_path()) ==> ({
            let dm = dom_model(html@);
            &&& (forall|k: int|
                0 <= k < cand_models(r.change_pct_candidates@).len() ==> index_pct_origin_ok(
                    dm,
                    #[trigger] cand_models(r.change_pct_candidates@)[k],
                ))
            &&& (forall|i: int|
                index_pct_hit(dm, i) ==> text_present(
                    cand_models(r.change_pct_candidates@),
                    trim_spec(dm[i].text),
                ))
        }),
{
    let dom = parse_dom(html);
    let ghost ds = dom@;
    let mut name_c: Vec<RankedCandidate> = Vec::new();
    let mut price_c: Vec<RankedCandidate> = Vec::new();
    let mut abs_c: Vec<RankedCandidate> = Vec::new();
    let mut pct_c: Vec<RankedCandidate> = Vec::new();
    let captured = crate::extract::capture_state(html);
    match &captured {
        Some(cap) => {
            let ghost capv = cap@;
            let tpath = vec!["pageInfo".to_owned(), "title".to_owned()];
            proof {
                assert(tpath.deep_view() =~= title_path());
            }
            match crate::backend::json_string_at(cap.as_str(), &tpath) {
                Some(tv) => {
                    let cleaned = crate::text::trim_str(
                        crate::text::cut_at_sub(tv.as_str(), " - ").as_str(),
                    );
                    let ghost cl = cleaned@;
                    if cleaned.unicode_len() > 0 {
                        proof {
                            assert(cl == json_title_clean(capv));
                            assert(cand_models(name_c@) =~= Seq::<CandModel>::empty());
                        }
                        merge_simple(
                            &mut name_c,
                            cleaned,
                            100,
                            "Found in __PRELOADED_STATE__ (title)",
                        );
                        proof {
                            assert(json_led(cand_models(name_c@), cl));
                        }
                    }
                },
                None => {},
            }
            let ppath = vec!["priceBoard".to_owned(), "price".to_owned()];
            proof {
                assert(ppath.deep_view() =~= price_path());
            }
            match crate::backend::json_string_at(cap.as_str(), &ppath) {
                Some(v) => {
                    let t = crate::text::trim_str(v.as_str());
                    let ghost tv2 = t@;
                    proof {
                        assert(cand_models(price_c@) =~= Seq::<CandModel>::empty());
                    }
                    merge_simple(&mut price_c, t, 100, "Found in __PRELOADED_STATE__ (price)");
                    proof {
                        assert(json_led(cand_models(price_c@), tv2));
                    }
                },
                None => {},
            }
            let apath = vec!["priceBoard".to_owned(), "change".to_owned()];
            proof {
                assert(apath.deep_view() =~= change_path());
            }
            match crate::backend::json_string_at(cap.as_str(), &apath) {
                Some(v) => {
                    let t = crate::text::trim_str(v.as_str());
                    let ghost tv2 = t@;
                    proof {
                        assert(cand_models(abs_c@) =~= Seq::<CandModel>::empty());
                    }
                    merge_simple(&mut abs_c, t, 100, "Found in __PRELOADED_STATE__ (change_abs)");
                    proof {
                        assert(json_led(cand_models(abs_c@), tv2));
                    }
                },
                None => {},
            }
            let cpath = vec!["priceBoard".to_owned(), "changePct".to_owned()];
            proof {
                assert(cpath.deep_view() =~= change_pct_path());
            }
            match crate::backend::json_string_at(cap.as_str(), &cpath) {
                Some(v) => {
                    let t = crate::text::trim_str(v.as_str());
                    let ghost tv2 = t@;
                    proof {
                        assert(cand_models(pct_c@) =~= Seq::<CandModel>::empty());
                    }
                    merge_simple(&mut pct_c, t, 100, "Found in __PRELOADED_STATE__ (change_pct)");
                    proof {
                        assert(json_led(cand_models(pct_c@), tv2));
                    }
                },
                None => {},
            }
        },
        None => {},
    }
    // DOM fallbacks, per field, only where the embedded state gave nothing
    if name_c.len() == 0 {
        match find_tag_elem(&dom, "title") {
            Some(ti) => {
                proof {
                    assert(ds[ti as int] == dom.nodes@[ti as int]@);
                    assert(find_tag(ds, "title"@) == Some(ti as int));
                }
                let cleaned = crate::text::trim_str(
                    crate::text::cut_at_sub(dom.nodes[ti].text.as_str(), " - ").as_str(),
                );
                proof {
                    assert(cleaned@ == index_title_name(ds));
                }
                if cleaned.unicode_len() > 0 {
                    let ghost cl = cleaned@;
                    proof {
                        assert(cand_models(name_c@) =~= Seq::<CandModel>::empty());
                    }
                    merge_simple(&mut name_c, cleaned, 80, "Found in <title> tag (fallback)");
                    proof {
                        assert(sole_entry(cand_models(name_c@), cl, 80));
                    }
                }
            },
            None => {},
        }
        if name_c.len() == 0 {
            match find_tag_elem(&dom, "h1") {
                Some(hi) => {
                    proof {
                        assert(ds[hi as int] == dom.nodes@[hi as int]@);
                        assert(find_tag(ds, "h1"@) == Some(hi as int));
                    }
                    let t = crate::text::trim_str(dom.nodes[hi].text.as_str());
                    proof {
                        assert(t@ == index_h1_name(ds));
                    }
                    if t.unicode_len() > 0 {
                        let ghost tl = t@;
                        proof {
                            assert(cand_models(name_c@) =~= Seq::<CandModel>::empty());
                        }
                        merge_simple(&mut name_c, t, 70, "Found in <h1> tag (fallback)");
                        proof {
                            assert(sole_entry(cand_models(name_c@), tl, 70));
                        }
                    }
                },
                None => {},
            }
        }
    }
    proof {
        if state_name_absent(html@) {
            assert(index_title_name(ds).len() > 0 ==> sole_entry(
                cand_models(name_c@),
                index_title_name(ds),
                80,
            ));
            assert(index_title_name(ds).len() == 0 && index_h1_name(ds).len() > 0 ==> sole_entry(
                cand_models(name_c@),
                index_h1_name(ds),
                70,
            ));
            assert(index_title_name(ds).len() == 0 && index_h1_name(ds).len() == 0
                ==> cand_models(name_c@).len() == 0);
        }
    }
    if price_c.len() == 0 {
        price_c = index_price_fallback(&dom);
    }
    if abs_c.len() == 0 {
        abs_c = index_abs_fallback(&dom);
    }
    if pct_c.len() == 0 {
        pct_c = index_pct_fallback(&dom);
    }
    proof {
        if state_field_absent(html@, price_path()) {
            assert(forall|k: int|
                0 <= k < cand_models(price_c@).len() ==> index_price_origin_ok(
                    ds,
                    #[trigger] cand_models(price_c@)[k],
                ));
            assert((exists|i: int| index_price_hit(ds, i)) ==> (forall|i: int|
                index_price_hit(ds, i) ==> text_present(
                    cand_models(price_c@),
                    trim_spec(ds[i].text),
                )));
            assert((forall|i: int| !index_price_hit(ds, i)) ==> (forall|i: int|
                index_price_broad_hit(ds, i) ==> text_present(
                    cand_models(price_c@),
                    trim_spec(ds[i].text),
                )));
        }
        if state_field_absent(html@, change_path()) {
            assert(forall|k: int|
                0 <= k < cand_models(abs_c@).len() ==> index_abs_origin_ok(
                    ds,
                    #[trigger] cand_models(abs_c@)[k],
                ));
            assert(forall|i: int|
                index_abs_hit(ds, i) ==> text_present(
                    cand_models(abs_c@),
                    trim_spec(ds[i].text),
                ));
        }
        if state_field_absent(html@, change_pct_path()) {
            assert(forall|k: int|
                0 <= k < cand_models(pct_c@).len() ==> index_pct_origin_ok(
                    ds,
                    #[trigger] cand_models(pct_c@)[k],
                ));
            assert(forall|i: int|
                index_pct_hit(ds, i) ==> text_present(
                    cand_models(pct_c@),
                    trim_spec(ds[i].text),
                ));
        }
    }
    proof {
        assert(state_capture(html@) matches Some(cap2) ==> ((json_title_clean(cap2).len() > 0
            ==> json_led(cand_models(name_c@), json_title_clean(cap2))) && (
        crate::backend::json_str_at(cap2, price_path()) matches Some(v) ==> json_led(
            cand_models(price_c@),
            trim_spec(v),
        )) && (crate::backend::json_str_at(cap2, change_path()) matches Some(v) ==> json_led(
            cand_models(abs_c@),
            trim_spec(v),
        )) && (crate::backend::json_str_at(cap2, change_pct_path()) matches Some(v) ==> json_led(
            cand_models(pct_c@),
            trim_spec(v),
        ))));
    }
    let ghost name_flat = cand_models(name_c@);
    let ghost price_flat = cand_models(price_c@);
    let ghost abs_flat = cand_models(abs_c@);
    let ghost pct_flat = cand_models(pct_c@);
    let name_s = sort_candidates(name_c);
    let price_s = sort_candidates(price_c);
    let abs_s = sort_candidates(abs_c);
    let pct_s = sort_candidates(pct_c);
    proof {
        match state_capture(html@) {
            Some(cap2) => {
                if json_title_clean(cap2).len() > 0 {
                    lemma_singleton_rank(name_flat, cand_models(name_s@));
                }
                match crate::backend::json_str_at(cap2, price_path()) {
                    Some(v) => {
                        lemma_singleton_rank(price_flat, cand_models(price_s@));
                    },
                    None => {},
                }
                match crate::backend::json_str_at(cap2, change_path()) {
                    Some(v) => {
                        lemma_singleton_rank(abs_flat, cand_models(abs_s@));
                    },
                    None => {},
                }
                match crate::backend::json_str_at(cap2, change_pct_path()) {
                    Some(v) => {
                        lemma_singleton_rank(pct_flat, cand_models(pct_s@));
                    },
                    None => {},
                }
            },
            None => {},
        }
        if state_name_absent(html@) {
            if index_title_name(ds).len() > 0 {
                lemma_singleton_rank(name_flat, cand_models(name_s@));
            } else if index_h1_name(ds).len() > 0 {
                if name_flat.len() == 1 {
                    lemma_singleton_rank(name_flat, cand_models(name_s@));
                }
            }
        }
        if state_field_absent(html@, price_path()) {
            lemma_all_transfer(
                price_flat,
                cand_models(price_s@),
                |x: CandModel| index_price_origin_ok(ds, x),
            );
            if exists|i: int| index_price_hit(ds, i) {
                assert forall|i: int| index_price_hit(ds, i) implies text_present(
                    cand_models(price_s@),
                    trim_spec(ds[i].text),
                ) by {
                    lemma_text_transfer(price_flat, cand_models(price_s@), trim_spec(ds[i].text));
                }
            }
            if forall|i: int| !index_price_hit(ds, i) {
                assert forall|i: int| index_price_broad_hit(ds, i) implies text_present(
                    cand_models(price_s@),
                    trim_spec(ds[i].text),
                ) by {
                    lemma_text_transfer(price_flat, cand_models(price_s@), trim_spec(ds[i].text));
                }
            }
        }
        if state_field_absent(html@, change_path()) {
            lemma_all_transfer(
                abs_flat,
                cand_models(abs_s@),
                |x: CandModel| index_abs_origin_ok(ds, x),
            );
            assert forall|i: int| index_abs_hit(ds, i) implies text_present(
                cand_models(abs_s@),
                trim_spec(ds[i].text),
            ) by {
                lemma_text_transfer(abs_flat, cand_models(abs_s@), trim_spec(ds[i].text));
            }
        }
        if state_field_absent(html@, change_pct_path()) {
            lemma_all_transfer(
                pct_flat,
                cand_models(pct_s@),
                |x: CandModel| index_pct_origin_ok(ds, x),
            );
            assert forall|i: int| index_pct_hit(ds, i) implies text_present(
                cand_models(pct_s@),
                trim_spec(ds[i].text),
            ) by {
                lemma_text_transfer(pct_flat, cand_models(pct_s@), trim_spec(ds[i].text));
            }
        }
    }
    DiscoveredData {
        code: code.to_owned(),
        url: quote_url(code),
        name_candidates: name_s,
        price_candidates: price_s,
        change_abs_candidates: abs_s,
        change_pct_candidates: pct_s,
    }
}

} // verus!
