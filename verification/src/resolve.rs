//! The fallback selector resolver.
//!
//! A field is described by an ordered list of selector strings, most
//! trusted first. The resolver walks the list: a selector that does
//! not compile is skipped, and the first one that compiles and has at
//! least one match decides the result — the trimmed descendant text
//! of its first match, in document order.

use vstd::prelude::*;

use crate::backend::MatchModel;
use crate::backend::doc_matches;
use crate::backend::frag_matches;
use crate::backend::sel_ok;
use crate::backend::select_in_document;
use crate::backend::select_in_fragment;
use crate::text::trim_spec;
use crate::text::trim_str;

verus! {

/// How a raw HTML string is to be parsed before querying it.
#[derive(Clone, Copy, PartialEq, Eq, Structural, Debug)]
pub enum DocKind {
    /// A complete page, parsed as a document.
    FullPage,
    /// A piece of markup, parsed as a body fragment.
    Fragment,
}

/// The matches of `s` in `h` under the chosen parse mode.
pub open spec fn matches_for(kind: DocKind, h: Seq<char>, s: Seq<char>) -> Seq<MatchModel> {
    match kind {
        DocKind::FullPage => doc_matches(h, s),
        DocKind::Fragment => frag_matches(h, s),
    }
}

/// Selector `s` compiles and matches at least one element of `h`.
pub open spec fn sel_hits(kind: DocKind, h: Seq<char>, s: Seq<char>) -> bool {
    sel_ok(s) && matches_for(kind, h, s).len() > 0
}

/// The position of the first selector in `sels` that compiles and has
/// a match in `h`.
pub open spec fn first_hit(kind: DocKind, h: Seq<char>, sels: Seq<Seq<char>>) -> Option<int>
    decreases sels.len(),
{
    if sels.len() == 0 {
        None
    } else if sel_hits(kind, h, sels[0]) {
        Some(0)
    } else {
        match first_hit(kind, h, sels.drop_first()) {
            Some(i) => Some(i + 1),
            None => None,
        }
    }
}

/// A hitting selector at `i` with no hit before it is the first hit;
/// no hit anywhere means there is none.
pub proof fn lemma_first_hit(kind: DocKind, h: Seq<char>, sels: Seq<Seq<char>>, i: int)
    requires
        0 <= i <= sels.len(),
        forall|j: int| 0 <= j < i ==> !sel_hits(kind, h, sels[j]),
        i < sels.len() ==> sel_hits(kind, h, sels[i]),
    ensures
        i < sels.len() ==> first_hit(kind, h, sels) == Some(i),
        i == sels.len() ==> first_hit(kind, h, sels) is None,
    decreases i,
{
    if sels.len() == 0 {
    } else if i == 0 {
    } else {
        lemma_first_hit(kind, h, sels.drop_first(), i - 1);
    }
}

/// What `resolve_field` returns: the trimmed text of the first match
/// of the first hitting selector, if any selector hits.
pub open spec fn resolve_spec(kind: DocKind, h: Seq<char>, sels: Seq<Seq<char>>) -> Option<
    Seq<char>,
> {
    match first_hit(kind, h, sels) {
        Some(i) => Some(trim_spec(matches_for(kind, h, sels[i])[0].text)),
        None => None,
    }
}

/// Tries each selector in order; a selector that fails to compile is
/// skipped, and the first that compiles and matches wins. Returns the
/// trimmed full text of that selector's first match, or `None` when
/// no selector both compiles and matches.
pub fn resolve_field(html: &str, kind: DocKind, selectors: &Vec<String>) -> (r: Option<String>)
    ensures
        match r {
            Some(t) => resolve_spec(kind, html@, selectors.deep_view()) == Some(t@),
            None => resolve_spec(kind, html@, selectors.deep_view()) is None,
        },
{
    let ghost sels = selectors.deep_view();
    let n = selectors.len();
    proof {
        assert(sels.len() == n);
    }
    let mut i: usize = 0;
    while i < n
        invariant
            i <= n,
            n == sels.len(),
            sels == selectors.deep_view(),
            n == selectors@.len(),
            forall|j: int| 0 <= j < i ==> !sel_hits(kind, html@, sels[j]),
        decreases n - i,
    {
        let sel = &selectors[i];
        proof {
            assert(sels[i as int] == selectors@[i as int]@);
        }
        let found = match kind {
            DocKind::FullPage => select_in_document(html, sel.as_str()),
            DocKind::Fragment => select_in_fragment(html, sel.as_str()),
        };
        match found {
            Ok(v) => {
                if v.len() > 0 {
                    proof {
                        assert(v@.map_values(|m: crate::backend::MatchRec| m@).len() == v@.len());
                        assert(sel_hits(kind, html@, sels[i as int]));
                        lemma_first_hit(kind, html@, sels, i as int);
                        assert(v@.map_values(|m: crate::backend::MatchRec| m@)[0] == v@[0]@);
                    }
                    let t = trim_str(v[0].text.as_str());
                    return Some(t);
                } else {
                    proof {
                        assert(v@.map_values(|m: crate::backend::MatchRec| m@).len() == 0);
                        assert(!sel_hits(kind, html@, sels[i as int]));
                    }
                }
            },
            Err(_) => {
                proof {
                    assert(!sel_ok(sels[i as int]));
                }
            },
        }
        i = i + 1;
    }
    proof {
        lemma_first_hit(kind, html@, sels, n as int);
    }
    None
}

} // verus!
