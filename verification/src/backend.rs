//! The trusted boundary to the HTML document model and the JSON parser.
//!
//! Everything the crate learns about a raw HTML document it learns
//! through the four functions here. Each is a thin wrapper over the
//! `scraper` or `serde_json` crate; its contract names the result of
//! the call through an uninterpreted function of the input strings,
//! and the verified code reasons from those names alone.

use vstd::prelude::*;

verus! {

// ---------------------------------------------------------------------------
// models of what the document engine reports
// ---------------------------------------------------------------------------

/// What one selector match looks like: the element's tag name, its
/// full descendant text, and its serialized outer markup.
pub struct MatchModel {
    pub tag: Seq<char>,
    pub text: Seq<char>,
    pub outer: Seq<char>,
}

/// One selector match, as returned by the document engine.
pub struct MatchRec {
    pub tag: String,
    pub text: String,
    pub outer: String,
}

impl View for MatchRec {
    type V = MatchModel;

    open spec fn view(&self) -> MatchModel {
        MatchModel { tag: self.tag@, text: self.text@, outer: self.outer@ }
    }
}

/// What one element of the flattened document looks like: its tag
/// name, its attributes as the engine reports them, its full
/// descendant text, and its depth in the tree (the number of its
/// ancestor nodes).
pub struct RawNodeModel {
    pub tag: Seq<char>,
    pub attrs: Seq<(Seq<char>, Seq<char>)>,
    pub text: Seq<char>,
    pub depth: int,
}

/// One element of the flattened document.
pub struct RawNode {
    pub tag: String,
    pub attrs: Vec<(String, String)>,
    pub text: String,
    pub depth: usize,
}

impl View for RawNode {
    type V = RawNodeModel;

    open spec fn view(&self) -> RawNodeModel {
        RawNodeModel {
            tag: self.tag@,
            attrs: self.attrs@.map_values(|p: (String, String)| (p.0@, p.1@)),
            text: self.text@,
            depth: self.depth as int,
        }
    }
}

// ---------------------------------------------------------------------------
// names for what the outside calls return
// ---------------------------------------------------------------------------

/// Whether `scraper::Selector::parse` accepts the selector string `s`.
pub uninterp spec fn sel_ok(s: Seq<char>) -> bool;

/// The matches of selector `s` in the document parsed from `h`, in
/// the order `Html::select` yields them (the order of the document
/// tree).
pub uninterp spec fn doc_matches(h: Seq<char>, s: Seq<char>) -> Seq<MatchModel>;

/// The matches of selector `s` in the fragment parsed from `h`, in
/// the order `Html::select` yields them.
pub uninterp spec fn frag_matches(h: Seq<char>, s: Seq<char>) -> Seq<MatchModel>;

/// Every element of the document parsed from `h`, in the order
/// `Html::select` yields them for the universal selector.
pub uninterp spec fn dom_of(h: Seq<char>) -> Seq<RawNodeModel>;

/// The string value found by parsing `s` as JSON and walking the
/// object keys in `path`; `None` when `s` is not JSON, a key is
/// missing, or the reached value is not a string.
pub uninterp spec fn json_str_at(s: Seq<char>, path: Seq<Seq<char>>) -> Option<Seq<char>>;

// ---------------------------------------------------------------------------
// the trusted wrappers
// ---------------------------------------------------------------------------

/// Relies on `scraper::Selector::parse` (which accepts or rejects a
/// selector string independently of any document), `scraper::Html::
/// parse_document`, `Html::select` (which walks the document tree in
/// order), `ElementRef::text`, `ElementRef::html` and `Element::name`.
/// The error string is the parse error's debug form, never empty.
#[verifier::external_body]
pub fn select_in_document(html: &str, selector: &str) -> (r: Result<Vec<MatchRec>, String>)
    ensures
        r is Ok <==> sel_ok(selector@),
        (r matches Ok(v) ==> v@.map_values(|m: MatchRec| m@) == doc_matches(html@, selector@)),
        (r matches Err(e) ==> e@.len() > 0),
{
    match scraper::Selector::parse(selector) {
        Ok(sel) => {
            let doc = scraper::Html::parse_document(html);
            Ok(doc.select(&sel).map(|el| MatchRec {
                tag: el.value().name().to_string(),
                text: el.text().collect::<String>(),
                outer: el.html(),
            }).collect())
        },
        Err(e) => Err(format!("{:?}", e)),
    }
}

/// The same capability over `scraper::Html::parse_fragment`, which
/// parses `html` as a body fragment instead of a full document.
#[verifier::external_body]
pub fn select_in_fragment(html: &str, selector: &str) -> (r: Result<Vec<MatchRec>, String>)
    ensures
        r is Ok <==> sel_ok(selector@),
        (r matches Ok(v) ==> v@.map_values(|m: MatchRec| m@) == frag_matches(html@, selector@)),
        (r matches Err(e) ==> e@.len() > 0),
{
    match scraper::Selector::parse(selector) {
        Ok(sel) => {
            let doc = scraper::Html::parse_fragment(html);
            Ok(doc.select(&sel).map(|el| MatchRec {
                tag: el.value().name().to_string(),
                text: el.text().collect::<String>(),
                outer: el.html(),
            }).collect())
        },
        Err(e) => Err(format!("{:?}", e)),
    }
}

/// Relies on `scraper::Html::parse_document` and `Html::select` with
/// the universal selector `*`, which yields every element in the
/// order of the parsed tree (document order for well-formed markup);
/// per element, on `Element::name`, `Element::attrs` (which yields
/// the attributes sorted by qualified name), `ElementRef::text`, and
/// `ego_tree::NodeRef::ancestors` for the
/// depth. Nothing is assumed here about how depths relate across
/// positions: the parent links are derived from them in verified code.
#[verifier::external_body]
pub fn dom_nodes(html: &str) -> (r: Vec<RawNode>)
    ensures
        r@.map_values(|n: RawNode| n@) == dom_of(html@),
{
    let doc = scraper::Html::parse_document(html);
    let sel = scraper::Selector::parse("*").unwrap();
    doc.select(&sel).map(|el| RawNode {
        tag: el.value().name().to_string(),
        attrs: el.value().attrs().map(|(k, v)| (k.to_string(), v.to_string())).collect(),
        text: el.text().collect(),
        depth: el.ancestors().count(),
    }).collect()
}

/// Relies on `serde_json::from_str::<serde_json::Value>`,
/// `serde_json::Value::get` (object member lookup) and
/// `serde_json::Value::as_str`, composed along the key path.
#[verifier::external_body]
pub fn json_string_at(text: &str, path: &Vec<String>) -> (r: Option<String>)
    ensures
        (r matches Some(t) ==> json_str_at(text@, path.deep_view()) == Some(t@)),
        (r is None ==> json_str_at(text@, path.deep_view()) is None),
{
    let mut value = match serde_json::from_str::<serde_json::Value>(text) {
        Ok(v) => v,
        Err(_) => return None,
    };
    for key in path.iter() {
        value = match value.get(key.as_str()) {
            Some(v) => v.clone(),
            None => return None,
        };
    }
    value.as_str().map(|s| s.to_string())
}

} // verus!
