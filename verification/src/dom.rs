//! The flattened document model.
//!
//! A parsed page is held as a vector of elements in tree order. Each
//! element carries what the heuristics read — tag name, identifier,
//! class list, the raw attributes, the full descendant text — plus its
//! depth and the index of its parent element, so ancestor walks are
//! plain index arithmetic. The identifier, the class list and the
//! parent link are derived here, in verified code, from the raw
//! attribute pairs and depths that the document engine reports.

use vstd::prelude::*;

use crate::backend::RawNode;
use crate::backend::RawNodeModel;
use crate::backend::dom_nodes;
use crate::backend::dom_of;
use crate::text::contains_chars;
use crate::text::contains_seq;
use crate::text::split_ws;
use crate::text::split_ws_spec;
use crate::text::str_chars;

verus! {

// ---------------------------------------------------------------------------
// attribute lookup
// ---------------------------------------------------------------------------

/// The value of the first attribute named `key`, if any.
pub open spec fn attr_value(attrs: Seq<(Seq<char>, Seq<char>)>, key: Seq<char>) -> Option<
    Seq<char>,
>
    decreases attrs.len(),
{
    if attrs.len() == 0 {
        None
    } else if attrs[0].0 == key {
        Some(attrs[0].1)
    } else {
        attr_value(attrs.drop_first(), key)
    }
}

pub proof fn lemma_attr_value(attrs: Seq<(Seq<char>, Seq<char>)>, key: Seq<char>, i: int)
    requires
        0 <= i <= attrs.len(),
        forall|j: int| 0 <= j < i ==> attrs[j].0 != key,
        i < attrs.len() ==> attrs[i].0 == key,
    ensures
        i < attrs.len() ==> attr_value(attrs, key) == Some(attrs[i].1),
        i == attrs.len() ==> attr_value(attrs, key) is None,
    decreases i,
{
    if attrs.len() == 0 {
    } else if i == 0 {
    } else {
        lemma_attr_value(attrs.drop_first(), key, i - 1);
    }
}

/// Finds the first attribute named `key` in `attrs`.
pub fn attr_find(attrs: &Vec<(String, String)>, key: &str) -> (r: Option<String>)
    ensures
        ({
            let am = attrs@.map_values(|p: (String, String)| (p.0@, p.1@));
            match r {
                Some(v) => attr_value(am, key@) == Some(v@),
                None => attr_value(am, key@) is None,
            }
        }),
{
    let ghost am = attrs@.map_values(|p: (String, String)| (p.0@, p.1@));
    let n = attrs.len();
    let mut i: usize = 0;
    while i < n
        invariant
            i <= n,
            n == attrs@.len(),
            am == attrs@.map_values(|p: (String, String)| (p.0@, p.1@)),
            forall|j: int| 0 <= j < i ==> am[j].0 != key@,
        decreases n - i,
    {
        proof {
            assert(am[i as int] == (attrs@[i as int].0@, attrs@[i as int].1@));
        }
        if crate::text::eq_str(attrs[i].0.as_str(), key) {
            proof {
                lemma_attr_value(am, key@, i as int);
            }
            return Some(attrs[i].1.clone());
        }
        i = i + 1;
    }
    proof {
        lemma_attr_value(am, key@, n as int);
    }
    None
}

// ---------------------------------------------------------------------------
// the element model
// ---------------------------------------------------------------------------

/// What one element of the flattened document looks like after
/// derivation.
pub struct ElemModel {
    pub tag: Seq<char>,
    pub id: Option<Seq<char>>,
    pub classes: Seq<Seq<char>>,
    pub attrs: Seq<(Seq<char>, Seq<char>)>,
    pub text: Seq<char>,
    pub depth: int,
    pub parent: Option<int>,
}

/// One element of the flattened document.
pub struct ElemInfo {
    pub tag: String,
    pub id: Option<String>,
    pub classes: Vec<String>,
    pub attrs: Vec<(String, String)>,
    pub text: String,
    pub depth: usize,
    pub parent: Option<usize>,
}

impl View for ElemInfo {
    type V = ElemModel;

    open spec fn view(&self) -> ElemModel {
        ElemModel {
            tag: self.tag@,
            id: match self.id {
                Some(v) => Some(v@),
                None => None,
            },
            classes: self.classes@.map_values(|t: String| t@),
            attrs: self.attrs@.map_values(|p: (String, String)| (p.0@, p.1@)),
            text: self.text@,
            depth: self.depth as int,
            parent: match self.parent {
                Some(p) => Some(p as int),
                None => None,
            },
        }
    }
}

/// The class attribute of the element, or empty when there is none.
pub open spec fn class_attr(attrs: Seq<(Seq<char>, Seq<char>)>) -> Seq<char> {
    match attr_value(attrs, "class"@) {
        Some(v) => v,
        None => Seq::empty(),
    }
}

/// The nearest position before `j + 1` whose element is shallower
/// than depth `d`: the parent, under a tree-order traversal.
pub open spec fn parent_scan(ds: Seq<RawNodeModel>, d: int, j: int) -> Option<int>
    decreases j + 1,
{
    if j < 0 {
        None
    } else if ds[j].depth < d {
        Some(j)
    } else {
        parent_scan(ds, d, j - 1)
    }
}

/// The parent of element `i`: the nearest earlier element that is
/// shallower.
pub open spec fn parent_of(ds: Seq<RawNodeModel>, i: int) -> Option<int> {
    parent_scan(ds, ds[i].depth, i - 1)
}

/// The derived model of element `i` of the raw document `ds`.
pub open spec fn elem_model_of(ds: Seq<RawNodeModel>, i: int) -> ElemModel {
    ElemModel {
        tag: ds[i].tag,
        id: attr_value(ds[i].attrs, "id"@),
        classes: split_ws_spec(class_attr(ds[i].attrs)),
        attrs: ds[i].attrs,
        text: ds[i].text,
        depth: ds[i].depth,
        parent: parent_of(ds, i),
    }
}

/// The derived model of the whole document parsed from `h`.
pub open spec fn dom_model(h: Seq<char>) -> Seq<ElemModel> {
    Seq::new(dom_of(h).len(), |i: int| elem_model_of(dom_of(h), i))
}

// ---------------------------------------------------------------------------
// the document
// ---------------------------------------------------------------------------

/// A parsed page, flattened to its elements in tree order.
pub struct Dom {
    pub nodes: Vec<ElemInfo>,
}

impl View for Dom {
    type V = Seq<ElemModel>;

    open spec fn view(&self) -> Seq<ElemModel> {
        self.nodes@.map_values(|e: ElemInfo| e@)
    }
}

impl Dom {
    /// Every parent link points strictly backwards, so ancestor walks
    /// terminate.
    pub open spec fn wf(&self) -> bool {
        forall|i: int|
            0 <= i < self@.len() ==> (#[trigger] self@[i].parent matches Some(p) ==> 0 <= p
                < i)
    }

    pub fn len(&self) -> (n: usize)
        ensures
            n == self@.len(),
    {
        self.nodes.len()
    }
}

fn clone_attrs(attrs: &Vec<(String, String)>) -> (r: Vec<(String, String)>)
    ensures
        r@ == attrs@,
{
    let n = attrs.len();
    let mut out: Vec<(String, String)> = Vec::new();
    let mut i: usize = 0;
    while i < n
        invariant
            i <= n,
            n == attrs@.len(),
            out@ == attrs@.subrange(0, i as int),
        decreases n - i,
    {
        let pair = (attrs[i].0.clone(), attrs[i].1.clone());
        proof {
            assert(pair == attrs@[i as int]);
            assert(attrs@.subrange(0, i as int + 1) =~= attrs@.subrange(0, i as int).push(
                attrs@[i as int],
            ));
        }
        out.push(pair);
        i = i + 1;
    }
    proof {
        assert(attrs@.subrange(0, n as int) =~= attrs@);
    }
    out
}

fn scan_parent(raw: &Vec<RawNode>, i: usize) -> (r: Option<usize>)
    requires
        i < raw@.len(),
    ensures
        ({
            let ds = raw@.map_values(|n: RawNode| n@);
            match r {
                Some(p) => p < i && parent_of(ds, i as int) == Some(p as int),
                None => parent_of(ds, i as int) is None,
            }
        }),
{
    let ghost ds = raw@.map_values(|n: RawNode| n@);
    let ghost d = ds[i as int].depth;
    proof {
        assert(ds[i as int] == raw@[i as int]@);
    }
    let di = raw[i].depth;
    let mut j: usize = i;
    while j > 0
        invariant
            j <= i < raw@.len(),
            ds == raw@.map_values(|n: RawNode| n@),
            d == ds[i as int].depth,
            d == di as int,
            parent_of(ds, i as int) == parent_scan(ds, d, j - 1),
        decreases j,
    {
        let jj = j - 1;
        proof {
            assert(ds[jj as int] == raw@[jj as int]@);
        }
        if raw[jj].depth < di {
            return Some(jj);
        }
        j = jj;
    }
    None
}

/// Parses `html` into the flattened document model, deriving each
/// element's identifier, class list and parent link.
pub fn parse_dom(html: &str) -> (d: Dom)
    ensures
        d@ == dom_model(html@),
        d.wf(),
{
    let raw = dom_nodes(html);
    let ghost ds = raw@.map_values(|n: RawNode| n@);
    proof {
        assert(ds == dom_of(html@));
    }
    let n = raw.len();
    let mut nodes: Vec<ElemInfo> = Vec::new();
    let mut i: usize = 0;
    while i < n
        invariant
            i <= n,
            n == raw@.len(),
            ds == raw@.map_values(|n: RawNode| n@),
            ds == dom_of(html@),
            nodes@.len() == i,
            forall|j: int| 0 <= j < i ==> nodes@[j]@ == elem_model_of(ds, j),
            forall|j: int|
                0 <= j < i ==> (#[trigger] nodes@[j]@.parent matches Some(p) ==> 0 <= p < j),
        decreases n - i,
    {
        proof {
            assert(ds[i as int] == raw@[i as int]@);
        }
        let id = attr_find(&raw[i].attrs, "id");
        let class_str = match attr_find(&raw[i].attrs, "class") {
            Some(v) => v,
            None => String::new(),
        };
        let classes = split_ws(class_str.as_str());
        let parent = scan_parent(&raw, i);
        let node = ElemInfo {
            tag: raw[i].tag.clone(),
            id,
            classes,
            attrs: clone_attrs(&raw[i].attrs),
            text: raw[i].text.clone(),
            depth: raw[i].depth,
            parent,
        };
        proof {
            assert(node@.classes == split_ws_spec(class_attr(ds[i as int].attrs)));
            assert(node@ == elem_model_of(ds, i as int));
        }
        nodes.push(node);
        i = i + 1;
    }
    let d = Dom { nodes };
    proof {
        assert(d@ =~= dom_model(html@));
    }
    d
}

// ---------------------------------------------------------------------------
// anchor discovery
// ---------------------------------------------------------------------------

/// Element `i` contains the target text.
pub open spec fn eligible(ds: Seq<ElemModel>, target: Seq<char>, i: int) -> bool {
    0 <= i < ds.len() && contains_seq(ds[i].text, target)
}

/// Element `i` is the anchor for `target`: it contains the target, no
/// eligible element has strictly shorter text, and no earlier eligible
/// element is as short.
pub open spec fn is_anchor(ds: Seq<ElemModel>, target: Seq<char>, i: int) -> bool {
    &&& eligible(ds, target, i)
    &&& forall|j: int| eligible(ds, target, j) ==> ds[j].text.len() >= ds[i].text.len()
    &&& forall|j: int|
        eligible(ds, target, j) && j < i ==> ds[j].text.len() > ds[i].text.len()
}

/// The anchor is unique: discovery is deterministic on a fixed
/// document and target.
pub proof fn lemma_anchor_unique(ds: Seq<ElemModel>, target: Seq<char>, i1: int, i2: int)
    requires
        is_anchor(ds, target, i1),
        is_anchor(ds, target, i2),
    ensures
        i1 == i2,
{
    if i1 < i2 {
        assert(ds[i1].text.len() > ds[i2].text.len());
        assert(ds[i1].text.len() >= ds[i2].text.len());
    } else if i2 < i1 {
        assert(ds[i2].text.len() > ds[i1].text.len());
    }
}

/// Scans every element and selects the tightest enclosing one: the
/// element whose full text contains `target` and is shortest, ties
/// resolved to the earliest in tree order.
pub fn find_anchor(dom: &Dom, target: &str) -> (r: Option<usize>)
    ensures
        match r {
            Some(i) => is_anchor(dom@, target@, i as int),
            None => forall|j: int| !eligible(dom@, target@, j),
        },
{
    let tv = str_chars(target);
    let n = dom.nodes.len();
    let mut best: Option<usize> = None;
    let mut best_len: usize = 0;
    let mut i: usize = 0;
    while i < n
        invariant
            i <= n,
            n == dom@.len(),
            n == dom.nodes@.len(),
            tv@ == target@,
            match best {
                Some(b) => b < i && eligible(dom@, target@, b as int) && best_len == dom@[
                    b as int].text.len() && (forall|j: int|
                    eligible(dom@, target@, j) && j < i ==> dom@[j].text.len() >= best_len) && (
                forall|j: int|
                    eligible(dom@, target@, j) && j < b ==> dom@[j].text.len() > best_len),
                None => forall|j: int| 0 <= j < i ==> !eligible(dom@, target@, j),
            },
        decreases n - i,
    {
        proof {
            assert(dom@[i as int] == dom.nodes@[i as int]@);
        }
        let text_chars = str_chars(dom.nodes[i].text.as_str());
        if contains_chars(&text_chars, &tv) {
            let tl = dom.nodes[i].text.unicode_len();
            let replace = match best {
                Some(_) => tl < best_len,
                None => true,
            };
            if replace {
                best = Some(i);
                best_len = tl;
            }
        }
        i = i + 1;
    }
    proof {
        match best {
            Some(b) => {
                assert(is_anchor(dom@, target@, b as int));
            },
            None => {},
        }
    }
    best
}

} // verus!
