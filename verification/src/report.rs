//! The verification reporter.
//!
//! Given a raw page and an operator-supplied selector string, reports
//! whether the selector compiles, how many elements it matches, and a
//! bounded snapshot of the first matches. This component never fails:
//! a bad selector is described in the result, not raised.

use vstd::prelude::*;

use crate::backend::doc_matches;
use crate::backend::sel_ok;
use crate::backend::select_in_document;
use crate::text::trim_spec;
use crate::text::trim_str;

verus! {

/// A snapshot of one matched element.
pub struct ElementInfo {
    pub tag: String,
    pub text: String,
    pub html: String,
}

/// The outcome of checking one selector against one page.
pub struct VerificationResult {
    pub url: String,
    pub selector: String,
    pub is_valid_syntax: bool,
    pub error_message: Option<String>,
    pub match_count: usize,
    pub matches: Vec<ElementInfo>,
}

/// At most this many matches are snapshotted in a report.
pub const MATCH_PREVIEW_LIMIT: usize = 5;

/// Checks `selector` against the document parsed from `html`.
///
/// On a selector that does not compile, the result carries a non-empty
/// error message and no match data. On one that compiles, it carries
/// the total match count and, for each of at most the first five
/// matches in document order, the match's tag name, trimmed text and
/// serialized markup.
pub fn verify_selector(html: &str, url: &str, selector: &str) -> (r: VerificationResult)
    ensures
        r.url@ == url@,
        r.selector@ == selector@,
        r.is_valid_syntax == sel_ok(selector@),
        !sel_ok(selector@) ==> r.match_count == 0 && r.matches@.len() == 0 && (
        r.error_message matches Some(e) && e@.len() > 0),
        sel_ok(selector@) ==> {
            let ms = doc_matches(html@, selector@);
            r.error_message is None && r.match_count == ms.len() && r.matches@.len() == (
            if ms.len() < MATCH_PREVIEW_LIMIT as int {
                ms.len() as int
            } else {
                MATCH_PREVIEW_LIMIT as int
            }) && (forall|i: int|
                0 <= i < r.matches@.len() ==> r.matches@[i].tag@ == ms[i].tag
                    && r.matches@[i].text@ == trim_spec(ms[i].text) && r.matches@[i].html@
                    == ms[i].outer)
        },
{
    match select_in_document(html, selector) {
        Ok(v) => {
            let ghost ms = doc_matches(html@, selector@);
            proof {
                assert(v@.map_values(|m: crate::backend::MatchRec| m@).len() == v@.len());
            }
            let count = v.len();
            let take = if count < MATCH_PREVIEW_LIMIT {
                count
            } else {
                MATCH_PREVIEW_LIMIT
            };
            let mut shots: Vec<ElementInfo> = Vec::new();
            let mut i: usize = 0;
            while i < take
                invariant
                    i <= take,
                    take <= v@.len(),
                    ms == doc_matches(html@, selector@),
                    v@.map_values(|m: crate::backend::MatchRec| m@) == ms,
                    shots@.len() == i,
                    forall|j: int|
                        0 <= j < i ==> shots@[j].tag@ == ms[j].tag && shots@[j].text@ == trim_spec(
                            ms[j].text,
                        ) && shots@[j].html@ == ms[j].outer,
                decreases take - i,
            {
                proof {
                    assert(v@.map_values(|m: crate::backend::MatchRec| m@)[i as int] == v@[
                        i as int]@);
                }
                let info = ElementInfo {
                    tag: v[i].tag.clone(),
                    text: trim_str(v[i].text.as_str()),
                    html: v[i].outer.clone(),
                };
                shots.push(info);
                i = i + 1;
            }
            VerificationResult {
                url: url.to_owned(),
                selector: selector.to_owned(),
                is_valid_syntax: true,
                error_message: None,
                match_count: count,
                matches: shots,
            }
        },
        Err(e) => VerificationResult {
            url: url.to_owned(),
            selector: selector.to_owned(),
            is_valid_syntax: false,
            error_message: Some(e),
            match_count: 0,
            matches: Vec::new(),
        },
    }
}

} // verus!
