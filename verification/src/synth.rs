//! The selector synthesis algorithm.
//!
//! Given the anchor element found by discovery, this module emits a
//! ranked list of selector strings that could re-locate that element
//! after the page's markup changes. The ranking encodes a brittleness
//! model: identifiers are assumed stable, class lists are assumed to
//! churn, and the block prefix of a `block__element` class name is
//! assumed to outlive its suffix. Candidates are merged by selector
//! string, keeping the best score, and returned best-first.

use vstd::multiset::Multiset;
use vstd::prelude::*;

use crate::candidates::lemma_lex_total;
use crate::text::trim_spec;
use crate::candidates::lemma_lex_trans;
use crate::candidates::lex_le;
use crate::candidates::str_le;

verus! {

// ---------------------------------------------------------------------------
// score tiers
// ---------------------------------------------------------------------------

/// An element's own identifier: assumed page-stable.
pub const ID_SCORE: u32 = 100;

/// An identifier found on an ancestor, anchoring a child path; five
/// points are lost per level walked up.
pub const ANCESTOR_ID_SCORE: u32 = 90;

/// A `block__element` class reduced to a substring match on its block
/// prefix: survives suffix renames.
pub const BLOCK_BASE_SCORE: u32 = 60;

/// The tag with every class attached: brittle to any class change.
pub const FULL_CLASS_SCORE: u32 = 55;

/// The tag with a single class: survives partial class changes.
pub const SINGLE_CLASS_SCORE: u32 = 40;

/// A distinctive ancestor class anchoring a child path; five points
/// are lost per level walked up.
pub const ANCESTOR_CLASS_SCORE: u32 = 70;

/// Any other attribute with its exact value.
pub const ATTR_SCORE: u32 = 30;

/// The bare tag name: always compiles, near-useless alone.
pub const TAG_SCORE: u32 = 1;

/// How many ancestor levels the walk may climb.
pub const ANCESTOR_LEVELS: u32 = 3;

/// The brittleness tiers are strictly ordered: an element's own
/// identifier beats an ancestor identifier, which beats every
/// class-derived selector; a block-prefix selector beats the full
/// class list, which beats a single class; any of those beats a plain
/// attribute, and the bare tag comes last.
pub proof fn lemma_score_tiers()
    ensures
        ID_SCORE > ANCESTOR_ID_SCORE - 5 * ANCESTOR_LEVELS,
        ANCESTOR_ID_SCORE - 5 * ANCESTOR_LEVELS > ANCESTOR_CLASS_SCORE - 5,
        ANCESTOR_CLASS_SCORE - 5 > BLOCK_BASE_SCORE,
        BLOCK_BASE_SCORE > FULL_CLASS_SCORE,
        FULL_CLASS_SCORE > SINGLE_CLASS_SCORE,
        SINGLE_CLASS_SCORE > ATTR_SCORE,
        ATTR_SCORE > TAG_SCORE,
{
}

// ---------------------------------------------------------------------------
// the selector-score map
// ---------------------------------------------------------------------------

/// The model of a scored selector list.
pub open spec fn sel_models(s: Seq<(String, u32)>) -> Seq<(Seq<char>, int)> {
    s.map_values(|p: (String, u32)| (p.0@, p.1 as int))
}

/// The position of the first entry for selector `t`, if any.
pub open spec fn find_sel(cs: Seq<(Seq<char>, int)>, t: Seq<char>) -> Option<int>
    decreases cs.len(),
{
    if cs.len() == 0 {
        None
    } else if cs[0].0 == t {
        Some(0)
    } else {
        match find_sel(cs.drop_first(), t) {
            Some(i) => Some(i + 1),
            None => None,
        }
    }
}

pub proof fn lemma_find_sel(cs: Seq<(Seq<char>, int)>, t: Seq<char>, i: int)
    requires
        0 <= i <= cs.len(),
        forall|j: int| 0 <= j < i ==> cs[j].0 != t,
        i < cs.len() ==> cs[i].0 == t,
    ensures
        i < cs.len() ==> find_sel(cs, t) == Some(i),
        i == cs.len() ==> find_sel(cs, t) is None,
    decreases i,
{
    if cs.len() == 0 {
    } else if i == 0 {
    } else {
        lemma_find_sel(cs.drop_first(), t, i - 1);
    }
}

pub proof fn lemma_find_sel_props(cs: Seq<(Seq<char>, int)>, t: Seq<char>)
    ensures
        match find_sel(cs, t) {
            Some(i) => 0 <= i < cs.len() && cs[i].0 == t && (forall|j: int|
                0 <= j < i ==> cs[j].0 != t),
            None => forall|j: int| 0 <= j < cs.len() ==> cs[j].0 != t,
        },
    decreases cs.len(),
{
    if cs.len() > 0 && cs[0].0 != t {
        let d = cs.drop_first();
        lemma_find_sel_props(d, t);
        match find_sel(d, t) {
            Some(i) => {
                assert forall|j: int| 0 <= j < i + 1 implies cs[j].0 != t by {
                    if j >= 1 {
                        assert(d[j - 1].0 != t);
                    }
                }
            },
            None => {
                assert forall|j: int| 0 <= j < cs.len() implies cs[j].0 != t by {
                    if j >= 1 {
                        assert(d[j - 1].0 != t);
                    }
                }
            },
        }
    }
}

/// The list after offering `(sel, score)`: on a collision the higher
/// score wins (the incumbent stays on a tie), otherwise the pair is
/// appended.
pub open spec fn add_sel_spec(cs: Seq<(Seq<char>, int)>, sel: Seq<char>, score: int) -> Seq<
    (Seq<char>, int),
> {
    match find_sel(cs, sel) {
        Some(i) => if score > cs[i].1 {
            cs.update(i, (sel, score))
        } else {
            cs
        },
        None => cs.push((sel, score)),
    }
}

/// No two entries name the same selector.
pub open spec fn distinct_sels(cs: Seq<(Seq<char>, int)>) -> bool {
    forall|i: int, j: int| 0 <= i < j < cs.len() ==> cs[i].0 != cs[j].0
}

/// Offering the same pair twice changes nothing beyond the first
/// offer.
pub proof fn lemma_add_sel_idempotent(cs: Seq<(Seq<char>, int)>, sel: Seq<char>, score: int)
    ensures
        add_sel_spec(add_sel_spec(cs, sel, score), sel, score) == add_sel_spec(cs, sel, score),
{
    lemma_find_sel_props(cs, sel);
    let cs1 = add_sel_spec(cs, sel, score);
    match find_sel(cs, sel) {
        None => {
            lemma_find_sel(cs1, sel, cs.len() as int);
        },
        Some(i) => {
            if score > cs[i].1 {
                lemma_find_sel(cs1, sel, i);
            }
        },
    }
}

pub proof fn lemma_add_sel_distinct(cs: Seq<(Seq<char>, int)>, sel: Seq<char>, score: int)
    requires
        distinct_sels(cs),
    ensures
        distinct_sels(add_sel_spec(cs, sel, score)),
{
    lemma_find_sel_props(cs, sel);
}

/// Every score stays within `[lo, hi]`.
pub proof fn lemma_add_sel_bounds(
    cs: Seq<(Seq<char>, int)>,
    sel: Seq<char>,
    score: int,
    lo: int,
    hi: int,
)
    requires
        forall|j: int| 0 <= j < cs.len() ==> lo <= (#[trigger] cs[j]).1 <= hi,
        lo <= score <= hi,
    ensures
        forall|j: int|
            0 <= j < add_sel_spec(cs, sel, score).len() ==> lo <= (#[trigger] add_sel_spec(
                cs,
                sel,
                score,
            )[j]).1 <= hi,
{
    lemma_find_sel_props(cs, sel);
}

/// An entry that the new offer cannot beat survives the merge.
pub proof fn lemma_add_sel_keeps(
    cs: Seq<(Seq<char>, int)>,
    sel: Seq<char>,
    score: int,
    p: (Seq<char>, int),
)
    requires
        exists|j: int| 0 <= j < cs.len() && cs[j] == p,
        p.1 >= score || p.0 != sel,
    ensures
        exists|j: int|
            0 <= j < add_sel_spec(cs, sel, score).len() && add_sel_spec(cs, sel, score)[j] == p,
{
    lemma_find_sel_props(cs, sel);
    let j = choose|j: int| 0 <= j < cs.len() && cs[j] == p;
    let merged = add_sel_spec(cs, sel, score);
    assert(merged[j] == p);
}

/// After the merge some entry names `sel`.
pub proof fn lemma_add_sel_has(cs: Seq<(Seq<char>, int)>, sel: Seq<char>, score: int)
    ensures
        exists|j: int|
            0 <= j < add_sel_spec(cs, sel, score).len() && (#[trigger] add_sel_spec(
                cs,
                sel,
                score,
            )[j]).0 == sel,
{
    lemma_find_sel_props(cs, sel);
    let merged = add_sel_spec(cs, sel, score);
    match find_sel(cs, sel) {
        Some(i) => {
            assert(merged[i].0 == sel);
        },
        None => {
            assert(merged[cs.len() as int].0 == sel);
        },
    }
}

/// When `sel` is new, the merge is exactly an append.
pub proof fn lemma_add_sel_new(cs: Seq<(Seq<char>, int)>, sel: Seq<char>, score: int)
    requires
        forall|j: int| 0 <= j < cs.len() ==> (#[trigger] cs[j]).0 != sel,
    ensures
        add_sel_spec(cs, sel, score) == cs.push((sel, score)),
{
    lemma_find_sel(cs, sel, cs.len() as int);
}

/// No entry names `t` after the merge either, when `sel` differs from
/// `t`.
pub proof fn lemma_add_sel_not(cs: Seq<(Seq<char>, int)>, sel: Seq<char>, score: int, t: Seq<char>)
    requires
        forall|j: int| 0 <= j < cs.len() ==> (#[trigger] cs[j]).0 != t,
        sel != t,
    ensures
        forall|j: int|
            0 <= j < add_sel_spec(cs, sel, score).len() ==> (#[trigger] add_sel_spec(
                cs,
                sel,
                score,
            )[j]).0 != t,
{
    lemma_find_sel_props(cs, sel);
}

/// Every score stays at or under `cap` except for one protected entry.
pub proof fn lemma_add_sel_cap(
    cs: Seq<(Seq<char>, int)>,
    sel: Seq<char>,
    score: int,
    cap: int,
    special: (Seq<char>, int),
)
    requires
        forall|j: int| 0 <= j < cs.len() ==> (#[trigger] cs[j]).1 <= cap || cs[j] == special,
        score <= cap,
    ensures
        forall|j: int|
            0 <= j < add_sel_spec(cs, sel, score).len() ==> (#[trigger] add_sel_spec(
                cs,
                sel,
                score,
            )[j]).1 <= cap || add_sel_spec(cs, sel, score)[j] == special,
{
    lemma_find_sel_props(cs, sel);
}

/// An offer that beats every incumbent for its selector lands exactly.
pub proof fn lemma_add_sel_dominant(cs: Seq<(Seq<char>, int)>, sel: Seq<char>, score: int)
    requires
        forall|j: int| 0 <= j < cs.len() && (#[trigger] cs[j]).0 == sel ==> cs[j].1 < score,
    ensures
        exists|j: int|
            0 <= j < add_sel_spec(cs, sel, score).len() && add_sel_spec(cs, sel, score)[j] == (
            sel,
            score,
        ),
{
    lemma_find_sel_props(cs, sel);
    let merged = add_sel_spec(cs, sel, score);
    match find_sel(cs, sel) {
        Some(i) => {
            assert(merged[i] == (sel, score));
        },
        None => {
            assert(merged[cs.len() as int] == (sel, score));
        },
    }
}

/// Every score stays at or under `cap` except for the offered pair
/// itself.
pub proof fn lemma_add_sel_cap_self(cs: Seq<(Seq<char>, int)>, sel: Seq<char>, score: int, cap: int)
    requires
        forall|j: int| 0 <= j < cs.len() ==> (#[trigger] cs[j]).1 <= cap || cs[j] == (sel, score),
    ensures
        forall|j: int|
            0 <= j < add_sel_spec(cs, sel, score).len() ==> (#[trigger] add_sel_spec(
                cs,
                sel,
                score,
            )[j]).1 <= cap || add_sel_spec(cs, sel, score)[j] == (sel, score),
{
    lemma_find_sel_props(cs, sel);
}

proof fn lemma_lits()
    ensures
        "#"@.len() == 1 && "#"@[0] == '#',
        "."@.len() == 1,
        "["@.len() == 1,
        " > "@.len() == 3,
        "[class*='"@.len() == 9,
        "']"@.len() == 2,
        "='"@.len() == 2,
{
    reveal_strlit("#");
    reveal_strlit(".");
    reveal_strlit("[");
    reveal_strlit(" > ");
    reveal_strlit("[class*='");
    reveal_strlit("']");
    reveal_strlit("='");
}

proof fn lemma_longer_ne(a: Seq<char>, b: Seq<char>)
    requires
        a.len() > b.len(),
    ensures
        a != b,
{
}

proof fn lemma_first_ne(a: Seq<char>, b: Seq<char>)
    requires
        a.len() > 0,
        b.len() > 0,
        a[0] != b[0],
    ensures
        a != b,
{
}

/// Offers a selector with a score to the map, keeping the higher score
/// when the selector is already present.
pub fn add_candidate(map: &mut Vec<(String, u32)>, selector: String, score: u32)
    ensures
        sel_models(final(map)@) == add_sel_spec(sel_models(old(map)@), selector@, score as int),
{
    let ghost cs = sel_models(map@);
    let ghost sv = selector@;
    let n = map.len();
    let mut found: usize = n;
    let mut i: usize = 0;
    while i < n
        invariant
            i <= n,
            n == map@.len(),
            cs == sel_models(map@),
            sv == selector@,
            found == n || (found < i && cs[found as int].0 == sv && (forall|j: int|
                0 <= j < found ==> cs[j].0 != sv)),
            found == n ==> forall|j: int| 0 <= j < i ==> cs[j].0 != sv,
        decreases n - i,
    {
        proof {
            assert(cs[i as int] == (map@[i as int].0@, map@[i as int].1 as int));
        }
        if found == n && crate::text::eq_str(map[i].0.as_str(), selector.as_str()) {
            found = i;
        }
        i = i + 1;
    }
    if found < n {
        proof {
            lemma_find_sel(cs, sv, found as int);
        }
        if score > map[found].1 {
            map.remove(found);
            map.insert(found, (selector, score));
            proof {
                assert(sel_models(map@) =~= cs.update(found as int, (sv, score as int)));
            }
        }
    } else {
        proof {
            lemma_find_sel(cs, sv, n as int);
        }
        map.push((selector, score));
        proof {
            assert(sel_models(map@) =~= cs.push((sv, score as int)));
        }
    }
}

// ---------------------------------------------------------------------------
// ranking
// ---------------------------------------------------------------------------

/// `a` may stand at or before `b`: higher score first, ties by
/// selector text.
pub open spec fn sel_le(a: (Seq<char>, int), b: (Seq<char>, int)) -> bool {
    a.1 > b.1 || (a.1 == b.1 && lex_le(a.0, b.0))
}

/// Ranked best-first, ties in lexical order.
pub open spec fn sel_sorted(cs: Seq<(Seq<char>, int)>) -> bool {
    forall|i: int, j: int| 0 <= i < j < cs.len() ==> sel_le(cs[i], cs[j])
}

proof fn lemma_sel_le_total(a: (Seq<char>, int), b: (Seq<char>, int))
    ensures
        sel_le(a, b) || sel_le(b, a),
{
    lemma_lex_total(a.0, b.0);
}

proof fn lemma_sel_le_trans(a: (Seq<char>, int), b: (Seq<char>, int), c: (Seq<char>, int))
    requires
        sel_le(a, b),
        sel_le(b, c),
    ensures
        sel_le(a, c),
{
    if a.1 == b.1 && b.1 == c.1 {
        lemma_lex_trans(a.0, b.0, c.0);
    }
}

fn sel_before(a: &(String, u32), b: &(String, u32)) -> (r: bool)
    ensures
        r == sel_le((a.0@, a.1 as int), (b.0@, b.1 as int)),
{
    if a.1 > b.1 {
        true
    } else if a.1 == b.1 {
        str_le(a.0.as_str(), b.0.as_str())
    } else {
        false
    }
}

/// Ranks the scored selectors best-first (score descending, ties by
/// lexical order). The result holds exactly the given pairs, and
/// distinct selectors stay distinct.
pub fn sort_scored(v: Vec<(String, u32)>) -> (r: Vec<(String, u32)>)
    ensures
        sel_sorted(sel_models(r@)),
        sel_models(r@).to_multiset() == sel_models(v@).to_multiset(),
        distinct_sels(sel_models(v@)) ==> distinct_sels(sel_models(r@)),
        r@.len() == v@.len(),
{
    broadcast use vstd::seq_lib::group_to_multiset_ensures;
    broadcast use vstd::multiset::group_multiset_axioms;

    let ghost orig = sel_models(v@);
    let mut rest = v;
    let mut out: Vec<(String, u32)> = Vec::new();
    while rest.len() > 0
        invariant
            sel_sorted(sel_models(out@)),
            sel_models(out@).to_multiset().add(sel_models(rest@).to_multiset())
                =~= orig.to_multiset(),
            out@.len() + rest@.len() == orig.len(),
            forall|x: int, y: int|
                0 <= x < out@.len() && 0 <= y < rest@.len() ==> sel_le(
                    #[trigger] sel_models(out@)[x],
                    #[trigger] sel_models(rest@)[y],
                ),
            distinct_sels(orig) ==> (distinct_sels(sel_models(out@)) && distinct_sels(
                sel_models(rest@),
            ) && (forall|x: int, y: int|
                0 <= x < out@.len() && 0 <= y < rest@.len() ==> (#[trigger] sel_models(
                    out@,
                )[x]).0 != (#[trigger] sel_models(rest@)[y]).0)),
        decreases rest@.len(),
    {
        let ghost pre = sel_models(rest@);
        let ghost preout = sel_models(out@);
        let m = rest.len();
        let mut bi: usize = 0;
        let mut k: usize = 1;
        proof {
            lemma_sel_le_total(pre[0], pre[0]);
        }
        while k < m
            invariant
                bi < k <= m,
                m == rest@.len(),
                pre == sel_models(rest@),
                forall|j: int| 0 <= j < k ==> sel_le(pre[bi as int], #[trigger] pre[j]),
            decreases m - k,
        {
            if !sel_before(&rest[bi], &rest[k]) {
                proof {
                    assert(pre[bi as int] == (rest@[bi as int].0@, rest@[bi as int].1 as int));
                    assert(pre[k as int] == (rest@[k as int].0@, rest@[k as int].1 as int));
                    lemma_sel_le_total(pre[bi as int], pre[k as int]);
                    assert forall|j: int| 0 <= j < k + 1 implies sel_le(
                        pre[k as int],
                        #[trigger] pre[j],
                    ) by {
                        if j < k {
                            lemma_sel_le_trans(pre[k as int], pre[bi as int], pre[j]);
                        } else {
                            lemma_sel_le_total(pre[k as int], pre[k as int]);
                        }
                    }
                }
                bi = k;
            }
            k = k + 1;
        }
        let best = rest.remove(bi);
        let ghost bv = (best.0@, best.1 as int);
        proof {
            assert(bv == pre[bi as int]);
            vstd::seq_lib::to_multiset_remove(pre, bi as int);
            let restp = pre.remove(bi as int);
            assert(sel_models(rest@) =~= restp);
            let outp = preout.push(bv);
            vstd::seq_lib::to_multiset_build(preout, bv);
            assert(pre.contains(pre[bi as int])) by {
                assert(pre[bi as int] == pre[bi as int]);
            }
            vstd::seq_lib::to_multiset_contains(pre, pre[bi as int]);
            assert forall|y: int| 0 <= y < restp.len() implies sel_le(bv, #[trigger] restp[y]) by {
                if y < bi {
                    assert(restp[y] == pre[y]);
                } else {
                    assert(restp[y] == pre[y + 1]);
                }
            }
            assert forall|x: int, y: int| 0 <= x < y < outp.len() implies sel_le(
                #[trigger] outp[x],
                #[trigger] outp[y],
            ) by {
                if y < preout.len() {
                    assert(sel_le(preout[x], preout[y]));
                } else {
                    assert(sel_le(preout[x], pre[bi as int]));
                }
            }
            assert forall|x: int, y: int|
                0 <= x < outp.len() && 0 <= y < restp.len() implies sel_le(
                #[trigger] outp[x],
                #[trigger] restp[y],
            ) by {
                let py = if y < bi {
                    y
                } else {
                    y + 1
                };
                assert(restp[y] == pre[py]);
                if x < preout.len() {
                    assert(sel_le(preout[x], pre[py]));
                } else {
                    assert(sel_le(bv, restp[y]));
                }
            }
            if distinct_sels(orig) {
                assert forall|x: int, y: int| 0 <= x < y < outp.len() implies (
                #[trigger] outp[x]).0 != (#[trigger] outp[y]).0 by {
                    if y < preout.len() {
                        assert(preout[x].0 != preout[y].0);
                    } else {
                        assert(preout[x].0 != pre[bi as int].0);
                    }
                }
                assert forall|x: int, y: int| 0 <= x < y < restp.len() implies (
                #[trigger] restp[x]).0 != (#[trigger] restp[y]).0 by {
                    let px = if x < bi {
                        x
                    } else {
                        x + 1
                    };
                    let py = if y < bi {
                        y
                    } else {
                        y + 1
                    };
                    assert(restp[x] == pre[px]);
                    assert(restp[y] == pre[py]);
                }
                assert forall|x: int, y: int|
                    0 <= x < outp.len() && 0 <= y < restp.len() implies (#[trigger] outp[x]).0 != (
                #[trigger] restp[y]).0 by {
                    let py = if y < bi {
                        y
                    } else {
                        y + 1
                    };
                    assert(restp[y] == pre[py]);
                    if x < preout.len() {
                        assert(preout[x].0 != pre[py].0);
                    } else {
                        assert(pre[bi as int].0 != pre[py].0);
                    }
                }
            }
        }
        out.push(best);
        proof {
            assert(sel_models(out@) =~= preout.push(bv));
            assert(sel_models(out@).to_multiset().add(sel_models(rest@).to_multiset())
                =~= orig.to_multiset());
        }
    }
    proof {
        assert(sel_models(rest@).to_multiset() =~= Multiset::<(Seq<char>, int)>::empty());
        assert(sel_models(out@).to_multiset().add(Multiset::<(Seq<char>, int)>::empty())
            =~= sel_models(out@).to_multiset());
        assert(sel_models(out@).to_multiset() =~= orig.to_multiset());
        vstd::seq_lib::to_multiset_len(sel_models(out@));
        vstd::seq_lib::to_multiset_len(orig);
    }
    out
}

// ---------------------------------------------------------------------------
// selector shapes
// ---------------------------------------------------------------------------

/// `#id`
pub open spec fn id_sel_spec(id: Seq<char>) -> Seq<char> {
    "#"@ + id
}

/// `.c1.c2...` for the class list, in order.
pub open spec fn dotted(classes: Seq<Seq<char>>) -> Seq<char>
    decreases classes.len(),
{
    if classes.len() == 0 {
        Seq::empty()
    } else {
        dotted(classes.drop_last()) + "."@ + classes.last()
    }
}

/// `tag.c1.c2...`
pub open spec fn full_class_sel_spec(tag: Seq<char>, classes: Seq<Seq<char>>) -> Seq<char> {
    tag + dotted(classes)
}

/// `tag.c`
pub open spec fn single_class_sel_spec(tag: Seq<char>, c: Seq<char>) -> Seq<char> {
    tag + "."@ + c
}

/// `tag[class*='base']`
pub open spec fn block_base_sel_spec(tag: Seq<char>, base: Seq<char>) -> Seq<char> {
    tag + "[class*='"@ + base + "']"@
}

/// `#id > ... > tag`
pub open spec fn anc_id_sel_spec(pid: Seq<char>, path: Seq<char>) -> Seq<char> {
    "#"@ + pid + " > "@ + path
}

/// `ptag.cls > ... > tag`
pub open spec fn anc_class_sel_spec(ptag: Seq<char>, cls: Seq<char>, path: Seq<char>) -> Seq<
    char,
> {
    ptag + "."@ + cls + " > "@ + path
}

/// `tag[key='val']`
pub open spec fn attr_sel_spec(tag: Seq<char>, key: Seq<char>, val: Seq<char>) -> Seq<char> {
    tag + "["@ + key + "='"@ + val + "']"@
}

fn build_id_sel(id: &str) -> (r: String)
    ensures
        r@ == id_sel_spec(id@),
{
    let mut s = "#".to_owned();
    s.append(id);
    s
}

fn build_single_class(tag: &str, c: &str) -> (r: String)
    ensures
        r@ == single_class_sel_spec(tag@, c@),
{
    let mut s = tag.to_owned();
    s.append(".");
    s.append(c);
    s
}

fn build_block_base(tag: &str, base: &str) -> (r: String)
    ensures
        r@ == block_base_sel_spec(tag@, base@),
{
    let mut s = tag.to_owned();
    s.append("[class*='");
    s.append(base);
    s.append("']");
    s
}

fn build_anc_id(pid: &str, path: &str) -> (r: String)
    ensures
        r@ == anc_id_sel_spec(pid@, path@),
{
    let mut s = "#".to_owned();
    s.append(pid);
    s.append(" > ");
    s.append(path);
    s
}

fn build_anc_class(ptag: &str, cls: &str, path: &str) -> (r: String)
    ensures
        r@ == anc_class_sel_spec(ptag@, cls@, path@),
{
    let mut s = ptag.to_owned();
    s.append(".");
    s.append(cls);
    s.append(" > ");
    s.append(path);
    s
}

fn build_attr_sel(tag: &str, key: &str, val: &str) -> (r: String)
    ensures
        r@ == attr_sel_spec(tag@, key@, val@),
{
    let mut s = tag.to_owned();
    s.append("[");
    s.append(key);
    s.append("='");
    s.append(val);
    s.append("']");
    s
}

fn build_full_class(tag: &str, classes: &Vec<String>) -> (r: String)
    ensures
        r@ == full_class_sel_spec(tag@, classes@.map_values(|t: String| t@)),
{
    let ghost m = classes@.map_values(|t: String| t@);
    let mut s = tag.to_owned();
    let n = classes.len();
    let mut i: usize = 0;
    while i < n
        invariant
            i <= n,
            n == classes@.len(),
            m == classes@.map_values(|t: String| t@),
            s@ == tag@ + dotted(m.subrange(0, i as int)),
        decreases n - i,
    {
        proof {
            assert(m.subrange(0, i as int + 1).drop_last() =~= m.subrange(0, i as int));
            assert(m.subrange(0, i as int + 1).last() == m[i as int]);
            assert(m[i as int] == classes@[i as int]@);
        }
        s.append(".");
        s.append(classes[i].as_str());
        proof {
            assert(s@ =~= tag@ + dotted(m.subrange(0, i as int + 1)));
        }
        i = i + 1;
    }
    proof {
        assert(m.subrange(0, n as int) =~= m);
    }
    s
}

/// A class that looks specific: one carrying a `__` separator or a
/// hyphen.
pub open spec fn specific_class(c: Seq<char>) -> bool {
    crate::text::contains_seq(c, "__"@) || crate::text::contains_seq(c, "-"@)
}

/// The first specific-looking class, if any.
pub open spec fn first_specific(cs: Seq<Seq<char>>) -> Option<Seq<char>>
    decreases cs.len(),
{
    if cs.len() == 0 {
        None
    } else if specific_class(cs[0]) {
        Some(cs[0])
    } else {
        first_specific(cs.drop_first())
    }
}

proof fn lemma_first_specific(cs: Seq<Seq<char>>, i: int)
    requires
        0 <= i <= cs.len(),
        forall|j: int| 0 <= j < i ==> !specific_class(#[trigger] cs[j]),
        i < cs.len() ==> specific_class(cs[i]),
    ensures
        i < cs.len() ==> first_specific(cs) == Some(cs[i]),
        i == cs.len() ==> first_specific(cs) is None,
    decreases i,
{
    if cs.len() == 0 {
    } else if i == 0 {
    } else {
        lemma_first_specific(cs.drop_first(), i - 1);
    }
}

fn find_specific_class(classes: &Vec<String>) -> (r: Option<String>)
    ensures
        ({
            let m = classes@.map_values(|t: String| t@);
            match r {
                Some(c) => first_specific(m) == Some(c@),
                None => first_specific(m) is None,
            }
        }),
{
    let ghost m = classes@.map_values(|t: String| t@);
    let n = classes.len();
    let mut i: usize = 0;
    while i < n
        invariant
            i <= n,
            n == classes@.len(),
            m == classes@.map_values(|t: String| t@),
            forall|j: int| 0 <= j < i ==> !specific_class(#[trigger] m[j]),
        decreases n - i,
    {
        proof {
            assert(m[i as int] == classes@[i as int]@);
        }
        let hit = crate::text::contains_str(classes[i].as_str(), "__") || crate::text::contains_str(
            classes[i].as_str(),
            "-",
        );
        if hit {
            let c = classes[i].clone();
            proof {
                lemma_first_specific(m, i as int);
            }
            return Some(c);
        }
        i = i + 1;
    }
    proof {
        lemma_first_specific(m, n as int);
    }
    None
}

// ---------------------------------------------------------------------------
// candidate generation
// ---------------------------------------------------------------------------

/// The element's identifier, when it has one.
pub open spec fn eid(e: crate::dom::ElemModel) -> Seq<char> {
    match e.id {
        Some(id) => id,
        None => Seq::empty(),
    }
}

/// The element has an identifier whose trimmed form is non-empty.
pub open spec fn usable_id(e: crate::dom::ElemModel) -> bool {
    match e.id {
        Some(id) => crate::text::trim_spec(id).len() > 0,
        None => false,
    }
}

/// The tag name does not itself look like an identifier selector.
pub open spec fn tag_plain(t: Seq<char>) -> bool {
    t.len() == 0 || t[0] != '#'
}

/// The shape behind the ancestor-identifier rule's strongest case:
/// the element has no usable identifier of its own, and its parent
/// carries one.
pub open spec fn anc_id_shape(ds: Seq<crate::dom::ElemModel>, i: int) -> bool {
    &&& 0 <= i < ds.len()
    &&& !usable_id(ds[i])
    &&& ds[i].parent is Some
    &&& 0 <= parent_index(ds, i) < ds.len()
    &&& ds[parent_index(ds, i)].id is Some
}

pub open spec fn parent_index(ds: Seq<crate::dom::ElemModel>, i: int) -> int {
    match ds[i].parent {
        Some(p) => p,
        None => 0,
    }
}

pub open spec fn parent_id(ds: Seq<crate::dom::ElemModel>, i: int) -> Seq<char> {
    eid(ds[parent_index(ds, i)])
}

/// Applying a sequence of offers to an empty map, in order.
pub open spec fn fold_adds(ems: Seq<(Seq<char>, int)>) -> Seq<(Seq<char>, int)>
    decreases ems.len(),
{
    if ems.len() == 0 {
        Seq::empty()
    } else {
        add_sel_spec(fold_adds(ems.drop_last()), ems.last().0, ems.last().1)
    }
}

/// The identifier rule's offers.
pub open spec fn id_emits(e: crate::dom::ElemModel) -> Seq<(Seq<char>, int)> {
    if usable_id(e) {
        seq![(id_sel_spec(eid(e)), ID_SCORE as int)]
    } else {
        Seq::empty()
    }
}

/// One class's offers: the single-class selector, then the block
/// prefix when the class follows the block__element convention.
pub open spec fn class_one_emits(tag: Seq<char>, c: Seq<char>) -> Seq<(Seq<char>, int)> {
    let single = seq![(single_class_sel_spec(tag, c), SINGLE_CLASS_SCORE as int)];
    if crate::text::contains_seq(c, "__"@) && crate::text::cut_at_sub_spec(c, "__"@).len() > 0 {
        single.push(
            (
                block_base_sel_spec(tag, crate::text::cut_at_sub_spec(c, "__"@)),
                BLOCK_BASE_SCORE as int,
            ),
        )
    } else {
        single
    }
}

pub open spec fn classes_emits(tag: Seq<char>, cs: Seq<Seq<char>>) -> Seq<(Seq<char>, int)>
    decreases cs.len(),
{
    if cs.len() == 0 {
        Seq::empty()
    } else {
        class_one_emits(tag, cs[0]) + classes_emits(tag, cs.drop_first())
    }
}

/// The class rules' offers: the full class list first, then each
/// class in turn.
pub open spec fn class_emits(e: crate::dom::ElemModel) -> Seq<(Seq<char>, int)> {
    if e.classes.len() > 0 {
        seq![(full_class_sel_spec(e.tag, e.classes), FULL_CLASS_SCORE as int)] + classes_emits(
            e.tag,
            e.classes,
        )
    } else {
        Seq::empty()
    }
}

/// The ancestor walk's offers from the element at `cur`, `level`
/// steps above the anchor, with `path` the child path accumulated so
/// far: an identifier-bearing ancestor ends the walk with one offer,
/// a specific class contributes one offer per level, and the walk
/// climbs at most to the third level.
pub open spec fn anc_emits(
    ds: Seq<crate::dom::ElemModel>,
    cur: int,
    level: int,
    path: Seq<char>,
) -> Seq<(Seq<char>, int)>
    decreases (if 0 <= cur { cur } else { 0 }),
{
    if 0 <= cur < ds.len() {
        match ds[cur].parent {
            Some(p) => if level <= ANCESTOR_LEVELS as int && 0 <= p < cur {
                match ds[p].id {
                    Some(pid) => seq![
                        (anc_id_sel_spec(pid, path), ANCESTOR_ID_SCORE as int - 5 * level),
                    ],
                    None => {
                        let head = match first_specific(ds[p].classes) {
                            Some(cls) => seq![
                                (
                                    anc_class_sel_spec(ds[p].tag, cls, path),
                                    ANCESTOR_CLASS_SCORE as int - 5 * level,
                                ),
                            ],
                            None => Seq::<(Seq<char>, int)>::empty(),
                        };
                        head + anc_emits(ds, p, level + 1, ds[p].tag + " > "@ + path)
                    },
                }
            } else {
                Seq::empty()
            },
            None => Seq::empty(),
        }
    } else {
        Seq::empty()
    }
}

/// One attribute's offer: skipped for the class and identifier
/// attributes and for blank values.
pub open spec fn attr_one_emits(tag: Seq<char>, kv: (Seq<char>, Seq<char>)) -> Seq<
    (Seq<char>, int),
> {
    if !crate::text::eq_ci(kv.0, "class"@) && !crate::text::eq_ci(kv.0, "id"@) && trim_spec(
        kv.1,
    ).len() > 0 {
        seq![(attr_sel_spec(tag, kv.0, kv.1), ATTR_SCORE as int)]
    } else {
        Seq::empty()
    }
}

pub open spec fn attrs_emits(tag: Seq<char>, attrs: Seq<(Seq<char>, Seq<char>)>) -> Seq<
    (Seq<char>, int),
>
    decreases attrs.len(),
{
    if attrs.len() == 0 {
        Seq::empty()
    } else {
        attr_one_emits(tag, attrs[0]) + attrs_emits(tag, attrs.drop_first())
    }
}

/// Everything the generator offers for element `i`, in order: the
/// identifier rule, the class rules, the ancestor walk, the other
/// attributes, and last the bare tag.
pub open spec fn gen_emits(ds: Seq<crate::dom::ElemModel>, i: int) -> Seq<(Seq<char>, int)> {
    id_emits(ds[i]) + class_emits(ds[i]) + anc_emits(ds, i, 1, ds[i].tag) + attrs_emits(
        ds[i].tag,
        ds[i].attrs,
    ) + seq![(ds[i].tag, TAG_SCORE as int)]
}

/// Emits every selector candidate for element `i` of the document,
/// merged by selector string with the best score kept on collisions.
///
/// The guarantees: the entries name pairwise distinct selectors with
/// scores between the bare-tag and identifier tiers; the bare tag name
/// is always among them; a usable identifier contributes `#id` at the
/// top tier; when the tag name is not itself `#`-shaped the bare-tag
/// entry scores exactly the bottom tier; and when the element has no
/// usable identifier but its parent has one, the parent-anchored
/// `#pid > tag` selector is present one step under the top tier while
/// everything else stays at or under the ancestor-class tier.
#[verifier::rlimit(100)]
pub fn generate_for_element(dom: &crate::dom::Dom, i: usize) -> (r: Vec<(String, u32)>)
    requires
        dom.wf(),
        i < dom@.len(),
    ensures
        ({
            let e = dom@[i as int];
            let ms = sel_models(r@);
            &&& distinct_sels(ms)
            &&& forall|j: int|
                0 <= j < ms.len() ==> TAG_SCORE as int <= (#[trigger] ms[j]).1 <= ID_SCORE as int
            &&& exists|j: int| 0 <= j < ms.len() && (#[trigger] ms[j]).0 == e.tag
            &&& usable_id(e) ==> exists|j: int|
                0 <= j < ms.len() && #[trigger] ms[j] == (id_sel_spec(eid(e)), ID_SCORE as int)
            &&& tag_plain(e.tag) ==> (exists|j: int|
                0 <= j < ms.len() && #[trigger] ms[j] == (e.tag, TAG_SCORE as int)) && (forall|
                j: int,
            |
                0 <= j < ms.len() && (#[trigger] ms[j]).0 == e.tag ==> ms[j].1 == TAG_SCORE as int)
            &&& tag_plain(e.tag) ==> (forall|j: int|
                0 <= j < ms.len() && (#[trigger] ms[j]).0 != e.tag ==> ms[j].1
                    >= ATTR_SCORE as int)
            &&& anc_id_shape(dom@, i as int) ==> (exists|j: int|
                0 <= j < ms.len() && #[trigger] ms[j] == (
                    anc_id_sel_spec(parent_id(dom@, i as int), e.tag),
                    ANCESTOR_ID_SCORE as int - 5,
                )) && (forall|j: int|
                0 <= j < ms.len() ==> (#[trigger] ms[j]).1 <= ANCESTOR_CLASS_SCORE as int || ms[j]
                    == (
                anc_id_sel_spec(parent_id(dom@, i as int), e.tag),
                ANCESTOR_ID_SCORE as int - 5,
                ))
            &&& ms == fold_adds(gen_emits(dom@, i as int))
        }),
{
    let ghost ds = dom@;
    let ghost ev = ds[i as int];
    proof {
        assert(ev == dom.nodes@[i as int]@);
        reveal_strlit("#");
        reveal_strlit(".");
        reveal_strlit("[");
        reveal_strlit(" > ");
        reveal_strlit("[class*='");
        reveal_strlit("']");
        reveal_strlit("='");
    }
    let ghost tv = ev.tag;
    let ghost hyp0 = tag_plain(tv);
    let ghost p9 = anc_id_shape(ds, i as int);
    let ghost ancsel = anc_id_sel_spec(parent_id(ds, i as int), tv);
    let ghost idsel = id_sel_spec(eid(ev));
    let tag = dom.nodes[i].tag.clone();
    let mut out: Vec<(String, u32)> = Vec::new();
    let ghost mut ems: Seq<(Seq<char>, int)> = Seq::empty();
    proof {
        assert(sel_models(out@) =~= Seq::<(Seq<char>, int)>::empty());
        assert(sel_models(out@) == fold_adds(ems));
    }

    // --- the element's own identifier ---
    let has_id = match &dom.nodes[i].id {
        Some(id) => {
            let idt = crate::text::trim_str(id.as_str());
            if idt.unicode_len() > 0 {
                let sel = build_id_sel(id.as_str());
                let ghost pre = sel_models(out@);
                proof {
                    assert(ev.id == Some(id@));
                    assert(sel@ == idsel);
                    assert(!p9);
                }
                add_candidate(&mut out, sel, ID_SCORE);
                proof {
                    let ems0 = ems;
                    ems = ems.push((idsel, ID_SCORE as int));
                    assert(ems.drop_last() =~= ems0);
                    assert(sel_models(out@) == fold_adds(ems));
                }
                proof {
                    lemma_add_sel_distinct(pre, idsel, ID_SCORE as int);
                    lemma_add_sel_bounds(pre, idsel, ID_SCORE as int, 1, 100);
                    lemma_add_sel_dominant(pre, idsel, ID_SCORE as int);
                    if hyp0 {
                        assert(idsel.len() == 1 + eid(ev).len());
                        assert(idsel[0] == '#');
                        if tv.len() == 0 {
                            lemma_longer_ne(idsel, tv);
                        } else {
                            lemma_first_ne(idsel, tv);
                        }
                        lemma_add_sel_not(pre, idsel, ID_SCORE as int, tv);
                        lemma_add_sel_bounds(pre, idsel, ID_SCORE as int, ATTR_SCORE as int, 100);
                    }
                }
                true
            } else {
                false
            }
        },
        None => false,
    };
    proof {
        assert(usable_id(ev) == has_id);
        assert(ems =~= id_emits(ev));
    }

    // --- the class list ---
    let nclasses = dom.nodes[i].classes.len();
    if nclasses > 0 {
        let sel = build_full_class(tag.as_str(), &dom.nodes[i].classes);
        let ghost pre = sel_models(out@);
        let ghost cm = dom.nodes@[i as int].classes@.map_values(|t: String| t@);
        proof {
            assert(cm == ev.classes);
            assert(dotted(cm) == dotted(cm.drop_last()) + "."@ + cm.last());
            assert(sel@.len() > tv.len());
            lemma_longer_ne(sel@, tv);
        }
        add_candidate(&mut out, sel, FULL_CLASS_SCORE);
        proof {
            let ems0 = ems;
            ems = ems.push((full_class_sel_spec(tv, cm), FULL_CLASS_SCORE as int));
            assert(ems.drop_last() =~= ems0);
            assert(sel_models(out@) == fold_adds(ems));
        }
        proof {
            lemma_add_sel_distinct(pre, full_class_sel_spec(tv, cm), FULL_CLASS_SCORE as int);
            lemma_add_sel_bounds(pre, full_class_sel_spec(tv, cm), FULL_CLASS_SCORE as int, 1, 100);
            if usable_id(ev) {
                lemma_add_sel_keeps(
                    pre,
                    full_class_sel_spec(tv, cm),
                    FULL_CLASS_SCORE as int,
                    (idsel, ID_SCORE as int),
                );
            }
            if hyp0 {
                lemma_add_sel_not(pre, full_class_sel_spec(tv, cm), FULL_CLASS_SCORE as int, tv);
                        lemma_add_sel_bounds(pre, full_class_sel_spec(tv, cm), FULL_CLASS_SCORE as int, ATTR_SCORE as int, 100);
            }
            if p9 {
                lemma_add_sel_bounds(
                    pre,
                    full_class_sel_spec(tv, cm),
                    FULL_CLASS_SCORE as int,
                    1,
                    ANCESTOR_CLASS_SCORE as int,
                );
            }
        }
        proof {
            assert(cm.len() == nclasses);
            assert(cm.skip(0) =~= cm);
            assert(ems =~= id_emits(ev) + seq![
                (full_class_sel_spec(tv, cm), FULL_CLASS_SCORE as int),
            ]);
            assert(ems + classes_emits(tv, cm.skip(0)) =~= id_emits(ev) + class_emits(ev));
        }
        let mut k: usize = 0;
        while k < nclasses
            invariant
                k <= nclasses,
                cm == ev.classes,
                ems + classes_emits(tv, cm.skip(k as int)) == id_emits(ev) + class_emits(ev),
                nclasses == dom.nodes@[i as int].classes@.len(),
                i < dom.nodes@.len(),
                dom.wf(),
                ds == dom@,
                ev == ds[i as int],
                tv == ev.tag,
                tag@ == tv,
                hyp0 == tag_plain(tv),
                p9 == anc_id_shape(ds, i as int),
                idsel == id_sel_spec(eid(ev)),
                distinct_sels(sel_models(out@)),
                sel_models(out@) == fold_adds(ems),
                forall|j: int|
                    0 <= j < sel_models(out@).len() ==> 1 <= (#[trigger] sel_models(out@)[j]).1
                        <= 100,
                usable_id(ev) ==> exists|j: int|
                    0 <= j < sel_models(out@).len() && #[trigger] sel_models(out@)[j] == (
                        idsel,
                        ID_SCORE as int,
                    ),
                hyp0 ==> forall|j: int|
                    0 <= j < sel_models(out@).len() ==> (#[trigger] sel_models(out@)[j]).0 != tv,
                hyp0 ==> forall|j: int|
                    0 <= j < sel_models(out@).len() ==> (#[trigger] sel_models(out@)[j]).1
                        >= ATTR_SCORE as int,
                p9 ==> forall|j: int|
                    0 <= j < sel_models(out@).len() ==> (#[trigger] sel_models(out@)[j]).1
                        <= ANCESTOR_CLASS_SCORE as int,
            decreases nclasses - k,
        {
            let ghost ems_head = ems;
            proof {
                assert(ev.classes[k as int] == dom.nodes@[i as int].classes@[k as int]@);
            }
            let c = dom.nodes[i].classes[k].clone();
            let sel = build_single_class(tag.as_str(), c.as_str());
            let ghost pre = sel_models(out@);
            proof {
                lemma_lits();
                assert(sel@.len() == tv.len() + 1 + c@.len());
                lemma_longer_ne(sel@, tv);
            }
            add_candidate(&mut out, sel, SINGLE_CLASS_SCORE);
            proof {
                let ems0 = ems;
                ems = ems.push((single_class_sel_spec(tv, c@), SINGLE_CLASS_SCORE as int));
                assert(ems.drop_last() =~= ems0);
                assert(sel_models(out@) == fold_adds(ems));
            }
            proof {
                let sv = single_class_sel_spec(tv, c@);
                lemma_add_sel_distinct(pre, sv, SINGLE_CLASS_SCORE as int);
                lemma_add_sel_bounds(pre, sv, SINGLE_CLASS_SCORE as int, 1, 100);
                if usable_id(ev) {
                    lemma_add_sel_keeps(
                        pre,
                        sv,
                        SINGLE_CLASS_SCORE as int,
                        (idsel, ID_SCORE as int),
                    );
                }
                if hyp0 {
                    lemma_add_sel_not(pre, sv, SINGLE_CLASS_SCORE as int, tv);
                        lemma_add_sel_bounds(pre, sv, SINGLE_CLASS_SCORE as int, ATTR_SCORE as int, 100);
                }
                if p9 {
                    lemma_add_sel_bounds(
                        pre,
                        sv,
                        SINGLE_CLASS_SCORE as int,
                        1,
                        ANCESTOR_CLASS_SCORE as int,
                    );
                }
            }
            if crate::text::contains_str(c.as_str(), "__") {
                let base = crate::text::cut_at_sub(c.as_str(), "__");
                if base.unicode_len() > 0 {
                    let sel = build_block_base(tag.as_str(), base.as_str());
                    let ghost pre = sel_models(out@);
                    proof {
                        lemma_lits();
                        assert(sel@.len() >= tv.len() + 1 + base@.len());
                        lemma_longer_ne(sel@, tv);
                    }
                    add_candidate(&mut out, sel, BLOCK_BASE_SCORE);
                    proof {
                        let ems0 = ems;
                        ems = ems.push((block_base_sel_spec(tv, base@), BLOCK_BASE_SCORE as int));
                        assert(ems.drop_last() =~= ems0);
                        assert(sel_models(out@) == fold_adds(ems));
                    }
                    proof {
                        let sv = block_base_sel_spec(tv, base@);
                        lemma_add_sel_distinct(pre, sv, BLOCK_BASE_SCORE as int);
                        lemma_add_sel_bounds(pre, sv, BLOCK_BASE_SCORE as int, 1, 100);
                        if usable_id(ev) {
                            lemma_add_sel_keeps(
                                pre,
                                sv,
                                BLOCK_BASE_SCORE as int,
                                (idsel, ID_SCORE as int),
                            );
                        }
                        if hyp0 {
                            lemma_add_sel_not(pre, sv, BLOCK_BASE_SCORE as int, tv);
                        lemma_add_sel_bounds(pre, sv, BLOCK_BASE_SCORE as int, ATTR_SCORE as int, 100);
                        }
                        if p9 {
                            lemma_add_sel_bounds(
                                pre,
                                sv,
                                BLOCK_BASE_SCORE as int,
                                1,
                                ANCESTOR_CLASS_SCORE as int,
                            );
                        }
                    }
                }
            }
            proof {
                assert(cm[k as int] == c@);
                let co = class_one_emits(tv, c@);
                assert(ems =~= ems_head + co);
                assert(cm.skip(k as int)[0] == cm[k as int]);
                assert(cm.skip(k as int).drop_first() =~= cm.skip(k as int + 1));
                assert(classes_emits(tv, cm.skip(k as int)) == class_one_emits(tv, cm[k as int])
                    + classes_emits(tv, cm.skip(k as int + 1)));
                assert(ems + classes_emits(tv, cm.skip(k as int + 1)) =~= ems_head
                    + classes_emits(tv, cm.skip(k as int)));
            }
            k = k + 1;
        }
        proof {
            assert(cm.skip(nclasses as int).len() == 0);
            assert(classes_emits(tv, cm.skip(nclasses as int)) =~= Seq::<(Seq<char>, int)>::empty());
            assert(ems =~= id_emits(ev) + class_emits(ev));
        }
    }
    proof {
        assert(nclasses == ev.classes.len());
        if ev.classes.len() == 0 {
            assert(ems =~= id_emits(ev) + class_emits(ev));
        }
    }
    let ghost base2 = id_emits(ev) + class_emits(ev);
    let ghost anc_total = anc_emits(ds, i as int, 1, tv);
    proof {
        assert(ems == base2);
    }

    // --- ancestor context, nearest level first ---
    let mut path: String = tag.clone();
    let mut cur: usize = i;
    let mut level: u32 = 1;
    let mut stop: bool = false;
    match dom.nodes[i].parent {
        None => {
            stop = true;
            proof {
                assert(!p9);
                assert(anc_total =~= Seq::<(Seq<char>, int)>::empty());
                assert(ems =~= base2 + anc_total);
            }
        },
        Some(p) => {
            proof {
                assert(ds[i as int].parent == Some(p as int));
                assert(p < i);
            }
            match &dom.nodes[p].id {
                Some(pid) => {
                    let sel = build_anc_id(pid.as_str(), path.as_str());
                    let ghost pre = sel_models(out@);
                    proof {
                        assert(ds[p as int] == dom.nodes@[p as int]@);
                        assert(ds[p as int].id == Some(pid@));
                        if p9 {
                            assert(parent_index(ds, i as int) == p as int);
                            assert(parent_id(ds, i as int) == pid@);
                            assert(sel@ == ancsel);
                        }
                        assert(sel@.len() == 1 + pid@.len() + 3 + tv.len());
                        assert(sel@[0] == '#');
                        if hyp0 {
                            if tv.len() == 0 {
                                lemma_longer_ne(sel@, tv);
                            } else {
                                lemma_first_ne(sel@, tv);
                            }
                        }
                    }
                    add_candidate(&mut out, sel, ANCESTOR_ID_SCORE - 5);
                    proof {
                        let ems0 = ems;
                        ems = ems.push((anc_id_sel_spec(pid@, tv), ANCESTOR_ID_SCORE as int - 5));
                        assert(ems.drop_last() =~= ems0);
                        assert(sel_models(out@) == fold_adds(ems));
                    }
                    proof {
                        let sv = anc_id_sel_spec(pid@, tv);
                        lemma_add_sel_distinct(pre, sv, ANCESTOR_ID_SCORE as int - 5);
                        lemma_add_sel_bounds(pre, sv, ANCESTOR_ID_SCORE as int - 5, 1, 100);
                        if usable_id(ev) {
                            lemma_add_sel_keeps(
                                pre,
                                sv,
                                ANCESTOR_ID_SCORE as int - 5,
                                (idsel, ID_SCORE as int),
                            );
                        }
                        if hyp0 {
                            lemma_add_sel_not(pre, sv, ANCESTOR_ID_SCORE as int - 5, tv);
                        lemma_add_sel_bounds(pre, sv, ANCESTOR_ID_SCORE as int - 5, ATTR_SCORE as int, 100);
                        }
                        if p9 {
                            lemma_add_sel_dominant(pre, ancsel, ANCESTOR_ID_SCORE as int - 5);
                            lemma_add_sel_cap_self(
                                pre,
                                ancsel,
                                ANCESTOR_ID_SCORE as int - 5,
                                ANCESTOR_CLASS_SCORE as int,
                            );
                        }
                    }
                    proof {
                        assert(anc_total =~= seq![
                            (anc_id_sel_spec(pid@, tv), ANCESTOR_ID_SCORE as int - 5),
                        ]);
                        assert(ems =~= base2 + anc_total);
                    }
                    stop = true;
                },
                None => {
                    proof {
                        assert(!p9);
                        assert(ds[p as int] == dom.nodes@[p as int]@);
                        assert(ds[p as int].id is None);
                    }
                    let ptag = dom.nodes[p].tag.clone();
                    proof {
                        assert(ptag@ == ds[p as int].tag);
                    }
                    match find_specific_class(&dom.nodes[p].classes) {
                        Some(cls) => {
                            let sel = build_anc_class(ptag.as_str(), cls.as_str(), path.as_str());
                            let ghost pre = sel_models(out@);
                            proof {
                                assert(sel@.len() >= tv.len() + 4);
                                lemma_longer_ne(sel@, tv);
                            }
                            add_candidate(&mut out, sel, ANCESTOR_CLASS_SCORE - 5);
                            proof {
                                let ems0 = ems;
                                ems = ems.push((anc_class_sel_spec(ptag@, cls@, tv), ANCESTOR_CLASS_SCORE as int - 5));
                                assert(ems.drop_last() =~= ems0);
                                assert(sel_models(out@) == fold_adds(ems));
                            }
                            proof {
                                let sv = anc_class_sel_spec(ptag@, cls@, tv);
                                lemma_add_sel_distinct(pre, sv, ANCESTOR_CLASS_SCORE as int - 5);
                                lemma_add_sel_bounds(
                                    pre,
                                    sv,
                                    ANCESTOR_CLASS_SCORE as int - 5,
                                    1,
                                    100,
                                );
                                if usable_id(ev) {
                                    lemma_add_sel_keeps(
                                        pre,
                                        sv,
                                        ANCESTOR_CLASS_SCORE as int - 5,
                                        (idsel, ID_SCORE as int),
                                    );
                                }
                                if hyp0 {
                                    lemma_add_sel_not(
                                        pre,
                                        sv,
                                        ANCESTOR_CLASS_SCORE as int - 5,
                                        tv,
                                    );
                                    lemma_add_sel_bounds(
                                        pre,
                                        sv,
                                        ANCESTOR_CLASS_SCORE as int - 5,
                                        ATTR_SCORE as int,
                                        100,
                                    );
                                }
                            }
                            proof {
                                assert(first_specific(ds[p as int].classes) == Some(cls@));
                                assert(ems =~= base2 + seq![
                                    (
                                        anc_class_sel_spec(ds[p as int].tag, cls@, tv),
                                        ANCESTOR_CLASS_SCORE as int - 5,
                                    ),
                                ]);
                            }
                        },
                        None => {
                            proof {
                                assert(first_specific(ds[p as int].classes) is None);
                                assert(ems == base2);
                            }
                        },
                    }
                    let mut joined = ptag;
                    joined.append(" > ");
                    joined.append(path.as_str());
                    path = joined;
                    cur = p;
                    level = 2;
                    proof {
                        assert(path@ == ds[p as int].tag + " > "@ + tv);
                        assert(ems + anc_emits(ds, cur as int, level as int, path@) =~= base2
                            + anc_total);
                    }
                },
            }
        },
    }
    if !stop {
        proof {
            assert(!p9);
        }
        let mut done2: bool = false;
        while !done2
            invariant
                !p9,
                cur < dom.nodes@.len(),
                i < dom.nodes@.len(),
                dom.wf(),
                ds == dom@,
                ev == ds[i as int],
                tv == ev.tag,
                tag@ == tv,
                hyp0 == tag_plain(tv),
                idsel == id_sel_spec(eid(ev)),
                2 <= level <= 4,
                path@.len() >= tv.len(),
                distinct_sels(sel_models(out@)),
                sel_models(out@) == fold_adds(ems),
                !done2 ==> ems + anc_emits(ds, cur as int, level as int, path@) == base2
                    + anc_total,
                done2 ==> ems == base2 + anc_total,
                forall|j: int|
                    0 <= j < sel_models(out@).len() ==> 1 <= (#[trigger] sel_models(out@)[j]).1
                        <= 100,
                usable_id(ev) ==> exists|j: int|
                    0 <= j < sel_models(out@).len() && #[trigger] sel_models(out@)[j] == (
                        idsel,
                        ID_SCORE as int,
                    ),
                hyp0 ==> forall|j: int|
                    0 <= j < sel_models(out@).len() ==> (#[trigger] sel_models(out@)[j]).0 != tv,
                hyp0 ==> forall|j: int|
                    0 <= j < sel_models(out@).len() ==> (#[trigger] sel_models(out@)[j]).1
                        >= ATTR_SCORE as int,
            decreases cur, (if done2 {
                0int
            } else {
                1int
            }),
        {
            proof {
                assert(ds[cur as int] == dom.nodes@[cur as int]@);
            }
            match dom.nodes[cur].parent {
                None => {
                    proof {
                        assert(anc_emits(ds, cur as int, level as int, path@) =~= Seq::<
                            (Seq<char>, int),
                        >::empty());
                        assert(ems =~= base2 + anc_total);
                    }
                    done2 = true;
                },
                Some(pnext) => {
                    if level > ANCESTOR_LEVELS {
                        proof {
                            assert(ds[cur as int].parent == Some(pnext as int));
                            assert(anc_emits(ds, cur as int, level as int, path@) =~= Seq::<
                                (Seq<char>, int),
                            >::empty());
                            assert(ems =~= base2 + anc_total);
                        }
                        done2 = true;
                    } else {
                        proof {
                            assert(ds[cur as int].parent == Some(pnext as int));
                            assert(pnext < cur);
                            assert(ds[pnext as int] == dom.nodes@[pnext as int]@);
                        }
                        match &dom.nodes[pnext].id {
                            Some(pid) => {
                                let sel = build_anc_id(pid.as_str(), path.as_str());
                                let ghost pre = sel_models(out@);
                                proof {
                                    lemma_lits();
                                    assert(sel@.len() == 1 + pid@.len() + 3 + path@.len());
                                    assert(sel@[0] == '#');
                                    if hyp0 {
                                        if tv.len() == 0 {
                                            lemma_longer_ne(sel@, tv);
                                        } else {
                                            lemma_first_ne(sel@, tv);
                                        }
                                    }
                                }
                                add_candidate(&mut out, sel, ANCESTOR_ID_SCORE - 5 * level);
                                proof {
                                    let ems0 = ems;
                                    ems = ems.push(
                                        (
                                            anc_id_sel_spec(pid@, path@),
                                            ANCESTOR_ID_SCORE as int - 5 * level as int,
                                        ),
                                    );
                                    assert(ems.drop_last() =~= ems0);
                                    assert(sel_models(out@) == fold_adds(ems));
                                }
                                proof {
                                    let sv = anc_id_sel_spec(pid@, path@);
                                    let sc = ANCESTOR_ID_SCORE as int - 5 * level as int;
                                    lemma_add_sel_distinct(pre, sv, sc);
                                    lemma_add_sel_bounds(pre, sv, sc, 1, 100);
                                    if usable_id(ev) {
                                        lemma_add_sel_keeps(pre, sv, sc, (idsel, ID_SCORE as int));
                                    }
                                    if hyp0 {
                                        lemma_add_sel_not(pre, sv, sc, tv);
                                        lemma_add_sel_bounds(pre, sv, sc, ATTR_SCORE as int, 100);
                                    }
                                    assert(ds[pnext as int].id == Some(pid@));
                                    assert(anc_emits(ds, cur as int, level as int, path@) =~= seq![
                                        (sv, sc),
                                    ]);
                                    assert(ems =~= base2 + anc_total);
                                }
                                done2 = true;
                            },
                            None => {
                                let ptag = dom.nodes[pnext].tag.clone();
                                proof {
                                    assert(ptag@ == ds[pnext as int].tag);
                                    assert(ds[pnext as int].id is None);
                                }
                                let ghost ems_mid = ems;
                                match find_specific_class(&dom.nodes[pnext].classes) {
                                    Some(cls) => {
                                        let sel = build_anc_class(
                                            ptag.as_str(),
                                            cls.as_str(),
                                            path.as_str(),
                                        );
                                        let ghost pre = sel_models(out@);
                                        proof {
                                            lemma_lits();
                                            assert(sel@.len() >= path@.len() + 4);
                                            lemma_longer_ne(sel@, tv);
                                        }
                                        add_candidate(
                                            &mut out,
                                            sel,
                                            ANCESTOR_CLASS_SCORE - 5 * level,
                                        );
                                        proof {
                                            let ems0 = ems;
                                            ems = ems.push(
                                                (
                                                    anc_class_sel_spec(ptag@, cls@, path@),
                                                    ANCESTOR_CLASS_SCORE as int - 5 * level as int,
                                                ),
                                            );
                                            assert(ems.drop_last() =~= ems0);
                                            assert(sel_models(out@) == fold_adds(ems));
                                        }
                                        proof {
                                            let sv = anc_class_sel_spec(ptag@, cls@, path@);
                                            let sc = ANCESTOR_CLASS_SCORE as int - 5
                                                * level as int;
                                            lemma_add_sel_distinct(pre, sv, sc);
                                            lemma_add_sel_bounds(pre, sv, sc, 1, 100);
                                            if usable_id(ev) {
                                                lemma_add_sel_keeps(
                                                    pre,
                                                    sv,
                                                    sc,
                                                    (idsel, ID_SCORE as int),
                                                );
                                            }
                                            if hyp0 {
                                                lemma_add_sel_not(pre, sv, sc, tv);
                                                lemma_add_sel_bounds(
                                                    pre,
                                                    sv,
                                                    sc,
                                                    ATTR_SCORE as int,
                                                    100,
                                                );
                                            }
                                            assert(first_specific(ds[pnext as int].classes)
                                                == Some(cls@));
                                            assert(ems =~= ems_mid + seq![(sv, sc)]);
                                        }
                                    },
                                    None => {
                                        proof {
                                            assert(first_specific(ds[pnext as int].classes)
                                                is None);
                                        }
                                    },
                                }
                                let ghost oldpath = path@;
                                let ghost oldlevel = level as int;
                                let ghost oldcur = cur as int;
                                let mut joined = ptag;
                                joined.append(" > ");
                                joined.append(path.as_str());
                                path = joined;
                                cur = pnext;
                                level = level + 1;
                                proof {
                                    assert(path@ == ds[pnext as int].tag + " > "@ + oldpath);
                                    assert(ems + anc_emits(
                                        ds,
                                        cur as int,
                                        level as int,
                                        path@,
                                    ) =~= ems_mid + anc_emits(ds, oldcur, oldlevel, oldpath));
                                }
                            },
                        }
                    }
                },
            }
        }
    }
    proof {
        assert(ems == base2 + anc_total);
    }

    // --- other attributes ---
    let ghost base3 = base2 + anc_total;
    let ghost am = ev.attrs;
    proof {
        assert(am.skip(0) =~= am);
        assert(ems + attrs_emits(tv, am.skip(0)) =~= base3 + attrs_emits(tv, am));
    }
    let nattrs = dom.nodes[i].attrs.len();
    let mut k: usize = 0;
    while k < nattrs
        invariant
            k <= nattrs,
            am == ev.attrs,
            ems + attrs_emits(tv, am.skip(k as int)) == base3 + attrs_emits(tv, am),
            nattrs == dom.nodes@[i as int].attrs@.len(),
            i < dom.nodes@.len(),
            ds == dom@,
            ev == ds[i as int],
            tv == ev.tag,
            tag@ == tv,
            hyp0 == tag_plain(tv),
            p9 == anc_id_shape(ds, i as int),
            idsel == id_sel_spec(eid(ev)),
            ancsel == anc_id_sel_spec(parent_id(ds, i as int), tv),
            distinct_sels(sel_models(out@)),
            sel_models(out@) == fold_adds(ems),
            forall|j: int|
                0 <= j < sel_models(out@).len() ==> 1 <= (#[trigger] sel_models(out@)[j]).1 <= 100,
            usable_id(ev) ==> exists|j: int|
                0 <= j < sel_models(out@).len() && #[trigger] sel_models(out@)[j] == (
                    idsel,
                    ID_SCORE as int,
                ),
            hyp0 ==> forall|j: int|
                0 <= j < sel_models(out@).len() ==> (#[trigger] sel_models(out@)[j]).0 != tv,
            hyp0 ==> forall|j: int|
                0 <= j < sel_models(out@).len() ==> (#[trigger] sel_models(out@)[j]).1
                    >= ATTR_SCORE as int,
            p9 ==> (exists|j: int|
                0 <= j < sel_models(out@).len() && #[trigger] sel_models(out@)[j] == (
                    ancsel,
                    ANCESTOR_ID_SCORE as int - 5,
                )) && (forall|j: int|
                0 <= j < sel_models(out@).len() ==> (#[trigger] sel_models(out@)[j]).1
                    <= ANCESTOR_CLASS_SCORE as int || sel_models(out@)[j] == (
                ancsel,
                ANCESTOR_ID_SCORE as int - 5,
                )),
        decreases nattrs - k,
    {
        let ghost ems_head = ems;
        proof {
            assert(ev.attrs[k as int] == (
                dom.nodes@[i as int].attrs@[k as int].0@,
                dom.nodes@[i as int].attrs@[k as int].1@,
            ));
        }
        let key = dom.nodes[i].attrs[k].0.clone();
        let val = dom.nodes[i].attrs[k].1.clone();
        let is_class = crate::text::eq_str_ci(key.as_str(), "class");
        let is_id = crate::text::eq_str_ci(key.as_str(), "id");
        let vt = crate::text::trim_str(val.as_str());
        if !is_class && !is_id && vt.unicode_len() > 0 {
            let sel = build_attr_sel(tag.as_str(), key.as_str(), val.as_str());
            let ghost pre = sel_models(out@);
            proof {
                lemma_lits();
                assert(sel@.len() >= tv.len() + 5);
                lemma_longer_ne(sel@, tv);
            }
            add_candidate(&mut out, sel, ATTR_SCORE);
            proof {
                let ems0 = ems;
                ems = ems.push((attr_sel_spec(tv, key@, val@), ATTR_SCORE as int));
                assert(ems.drop_last() =~= ems0);
                assert(sel_models(out@) == fold_adds(ems));
            }
            proof {
                let sv = attr_sel_spec(tv, key@, val@);
                lemma_add_sel_distinct(pre, sv, ATTR_SCORE as int);
                lemma_add_sel_bounds(pre, sv, ATTR_SCORE as int, 1, 100);
                if usable_id(ev) {
                    lemma_add_sel_keeps(pre, sv, ATTR_SCORE as int, (idsel, ID_SCORE as int));
                }
                if hyp0 {
                    lemma_add_sel_not(pre, sv, ATTR_SCORE as int, tv);
                        lemma_add_sel_bounds(pre, sv, ATTR_SCORE as int, ATTR_SCORE as int, 100);
                }
                if p9 {
                    lemma_add_sel_keeps(
                        pre,
                        sv,
                        ATTR_SCORE as int,
                        (ancsel, ANCESTOR_ID_SCORE as int - 5),
                    );
                    lemma_add_sel_cap(
                        pre,
                        sv,
                        ATTR_SCORE as int,
                        ANCESTOR_CLASS_SCORE as int,
                        (ancsel, ANCESTOR_ID_SCORE as int - 5),
                    );
                }
            }
        }
        proof {
            assert(am[k as int] == (key@, val@));
            let ao = attr_one_emits(tv, am[k as int]);
            assert(ems =~= ems_head + ao);
            assert(am.skip(k as int)[0] == am[k as int]);
            assert(am.skip(k as int).drop_first() =~= am.skip(k as int + 1));
            assert(attrs_emits(tv, am.skip(k as int)) == attr_one_emits(tv, am[k as int])
                + attrs_emits(tv, am.skip(k as int + 1)));
            assert(ems + attrs_emits(tv, am.skip(k as int + 1)) =~= ems_head + attrs_emits(
                tv,
                am.skip(k as int),
            ));
        }
        k = k + 1;
    }
    proof {
        assert(am.skip(nattrs as int).len() == 0);
        assert(attrs_emits(tv, am.skip(nattrs as int)) =~= Seq::<(Seq<char>, int)>::empty());
        assert(ems =~= base3 + attrs_emits(tv, am));
    }

    // --- the bare tag, as a last resort ---
    let ghost pre = sel_models(out@);
    add_candidate(&mut out, tag, TAG_SCORE);
    proof {
        let ems0 = ems;
        ems = ems.push((tv, TAG_SCORE as int));
        assert(ems.drop_last() =~= ems0);
        assert(sel_models(out@) == fold_adds(ems));
    }
    proof {
        lemma_add_sel_distinct(pre, tv, TAG_SCORE as int);
        lemma_add_sel_bounds(pre, tv, TAG_SCORE as int, 1, 100);
        lemma_add_sel_has(pre, tv, TAG_SCORE as int);
        if usable_id(ev) {
            lemma_add_sel_keeps(pre, tv, TAG_SCORE as int, (idsel, ID_SCORE as int));
        }
        if hyp0 {
            lemma_add_sel_new(pre, tv, TAG_SCORE as int);
        }
        if p9 {
            lemma_add_sel_keeps(pre, tv, TAG_SCORE as int, (ancsel, ANCESTOR_ID_SCORE as int - 5));
            lemma_add_sel_cap(
                pre,
                tv,
                TAG_SCORE as int,
                ANCESTOR_CLASS_SCORE as int,
                (ancsel, ANCESTOR_ID_SCORE as int - 5),
            );
        }
    }
    proof {
        assert(ems =~= gen_emits(ds, i as int));
        assert(sel_models(out@) == fold_adds(gen_emits(ds, i as int)));
    }
    out
}


// ---------------------------------------------------------------------------
// ranked synthesis
// ---------------------------------------------------------------------------

/// Ranked synthesis respects the brittleness tiers: in any ranked
/// selector list, an entry at the identifier tier stands strictly
/// before every class-derived entry, and a block-prefix entry stands
/// strictly before every full-class-list entry.
pub proof fn lemma_tier_precedence(ms: Seq<(Seq<char>, int)>, a: int, b: int)
    requires
        sel_sorted(ms),
        0 <= a < ms.len(),
        0 <= b < ms.len(),
        ms[a].1 == ID_SCORE as int && ms[b].1 <= BLOCK_BASE_SCORE as int || ms[a].1
            == BLOCK_BASE_SCORE as int && ms[b].1 == FULL_CLASS_SCORE as int,
    ensures
        a < b,
{
    lemma_rank_position(ms, a, b);
}

/// In a ranked list an entry with a strictly higher score stands
/// strictly earlier.
pub proof fn lemma_rank_position(ms: Seq<(Seq<char>, int)>, a: int, b: int)
    requires
        sel_sorted(ms),
        0 <= a < ms.len(),
        0 <= b < ms.len(),
        ms[a].1 > ms[b].1,
    ensures
        a < b,
{
    if b < a {
        assert(sel_le(ms[b], ms[a]));
    }
}

/// A ranked list is determined by its contents: two sorted lists of
/// pairwise distinct selectors holding the same entries are equal.
/// With the generator's offers a function of the document alone, the
/// whole synthesis pipeline is therefore deterministic.
pub proof fn lemma_ranking_unique(a: Seq<(Seq<char>, int)>, b: Seq<(Seq<char>, int)>)
    requires
        sel_sorted(a),
        sel_sorted(b),
        distinct_sels(a),
        distinct_sels(b),
        a.to_multiset() == b.to_multiset(),
    ensures
        a == b,
    decreases a.len(),
{
    broadcast use vstd::seq_lib::group_to_multiset_ensures;
    broadcast use vstd::multiset::group_multiset_axioms;

    vstd::seq_lib::to_multiset_len(a);
    vstd::seq_lib::to_multiset_len(b);
    if a.len() == 0 {
        assert(a =~= b);
    } else {
        assert(a.contains(a[0]));
        vstd::seq_lib::to_multiset_contains(a, a[0]);
        vstd::seq_lib::to_multiset_contains(b, a[0]);
        let k = choose|k: int| 0 <= k < b.len() && b[k] == a[0];
        assert(b.contains(b[0]));
        vstd::seq_lib::to_multiset_contains(b, b[0]);
        vstd::seq_lib::to_multiset_contains(a, b[0]);
        let m = choose|m: int| 0 <= m < a.len() && a[m] == b[0];
        if k == 0 {
            assert(a[0] == b[0]);
        } else if m == 0 {
            assert(a[0] == b[0]);
        } else {
            assert(sel_le(b[0], b[k]));
            assert(sel_le(a[0], a[m]));
            if a[0].1 == b[0].1 {
                crate::candidates::lemma_lex_antisym(a[0].0, b[0].0);
                assert(a[0].0 == b[0].0);
            }
            assert(a[0] == b[0]);
        }
        let at = a.drop_first();
        let bt = b.drop_first();
        assert(at =~= a.remove(0));
        assert(bt =~= b.remove(0));
        vstd::seq_lib::to_multiset_remove(a, 0);
        vstd::seq_lib::to_multiset_remove(b, 0);
        assert(at.to_multiset() == bt.to_multiset());
        assert forall|x: int, y: int| 0 <= x < y < at.len() implies sel_le(at[x], at[y])
            && at[x].0 != at[y].0 by {
            assert(a[x + 1] == at[x]);
            assert(a[y + 1] == at[y]);
        }
        assert forall|x: int, y: int| 0 <= x < y < bt.len() implies sel_le(bt[x], bt[y])
            && bt[x].0 != bt[y].0 by {
            assert(b[x + 1] == bt[x]);
            assert(b[y + 1] == bt[y]);
        }
        lemma_ranking_unique(at, bt);
        assert forall|j: int| 0 <= j < a.len() implies a[j] == b[j] by {
            if j > 0 {
                assert(at[j - 1] == a[j]);
                assert(bt[j - 1] == b[j]);
            }
        }
        assert(a =~= b);
    }
}

/// The ranked selector candidates for element `i`, best first.
///
/// On top of the generation guarantees: the list is sorted best-first
/// with pairwise distinct selectors; under a usable identifier the
/// top entry scores the identifier tier; under a plain tag name the
/// bare tag stands last at the bottom tier; and in the
/// parent-identifier shape the `#pid > tag` selector stands first.
pub fn synthesize_ranked(dom: &crate::dom::Dom, i: usize) -> (r: Vec<(String, u32)>)
    requires
        dom.wf(),
        i < dom@.len(),
    ensures
        ({
            let e = dom@[i as int];
            let ms = sel_models(r@);
            &&& sel_sorted(ms)
            &&& distinct_sels(ms)
            &&& ms.len() > 0
            &&& (forall|j: int|
                0 <= j < ms.len() ==> TAG_SCORE as int <= (#[trigger] ms[j]).1 <= ID_SCORE as int)
            &&& (exists|j: int| 0 <= j < ms.len() && (#[trigger] ms[j]).0 == e.tag)
            &&& (usable_id(e) ==> ms[0].1 == ID_SCORE as int)
            &&& (tag_plain(e.tag) ==> ms[ms.len() - 1] == (e.tag, TAG_SCORE as int))
            &&& (anc_id_shape(dom@, i as int) ==> ms[0] == (
                anc_id_sel_spec(parent_id(dom@, i as int), e.tag),
                ANCESTOR_ID_SCORE as int - 5,
            ))
            &&& ms.to_multiset() == fold_adds(gen_emits(dom@, i as int)).to_multiset()
        }),
{
    let pairs = generate_for_element(dom, i);
    let ghost gm = sel_models(pairs@);
    let r = sort_scored(pairs);
    proof {
        broadcast use vstd::seq_lib::group_to_multiset_ensures;
        broadcast use vstd::multiset::group_multiset_axioms;

        let e = dom@[i as int];
        let ms = sel_models(r@);
        assert(ms.len() == gm.len());
        assert forall|p: (Seq<char>, int)| #[trigger] gm.contains(p) implies ms.contains(p) by {
            vstd::seq_lib::to_multiset_contains(gm, p);
            vstd::seq_lib::to_multiset_contains(ms, p);
        }
        assert forall|p: (Seq<char>, int)| #[trigger] ms.contains(p) implies gm.contains(p) by {
            vstd::seq_lib::to_multiset_contains(gm, p);
            vstd::seq_lib::to_multiset_contains(ms, p);
        }
        // every ranked entry is a generated entry
        assert forall|k: int| 0 <= k < ms.len() implies exists|j: int|
            0 <= j < gm.len() && gm[j] == #[trigger] ms[k] by {
            assert(ms.contains(ms[k]));
        }
        // score bounds carry over
        assert forall|k: int|
            0 <= k < ms.len() implies TAG_SCORE as int <= (#[trigger] ms[k]).1
            <= ID_SCORE as int by {
            let j = choose|j: int| 0 <= j < gm.len() && gm[j] == ms[k];
        }
        // the bare tag is present
        let jt = choose|j: int| 0 <= j < gm.len() && (#[trigger] gm[j]).0 == e.tag;
        assert(gm.contains(gm[jt]));
        let kt = choose|k: int| 0 <= k < ms.len() && ms[k] == gm[jt];
        assert(ms[kt].0 == e.tag);
        if usable_id(e) {
            let p = (id_sel_spec(eid(e)), ID_SCORE as int);
            assert(gm.contains(p)) by {
                let j = choose|j: int| 0 <= j < gm.len() && gm[j] == p;
            }
            let a = choose|a: int| 0 <= a < ms.len() && ms[a] == p;
            if a > 0 {
                assert(sel_le(ms[0], ms[a]));
            }
            assert(ms[0].1 == ID_SCORE as int);
        }
        if tag_plain(e.tag) {
            let p = (e.tag, TAG_SCORE as int);
            assert(gm.contains(p)) by {
                let j = choose|j: int| 0 <= j < gm.len() && gm[j] == p;
            }
            let t = choose|t: int| 0 <= t < ms.len() && ms[t] == p;
            if t < ms.len() - 1 {
                let k = t + 1;
                assert(sel_le(ms[t], ms[k]));
                assert(ms[k].1 == TAG_SCORE as int);
                let j = choose|j: int| 0 <= j < gm.len() && gm[j] == ms[k];
                assert(gm[j].0 == e.tag);
                assert(ms[k].0 == e.tag);
                assert(ms[t].0 == ms[k].0);
                assert(false);
            }
            assert(t == ms.len() - 1);
        }
        if anc_id_shape(dom@, i as int) {
            let p = (
                anc_id_sel_spec(parent_id(dom@, i as int), e.tag),
                ANCESTOR_ID_SCORE as int - 5,
            );
            assert(gm.contains(p)) by {
                let j = choose|j: int| 0 <= j < gm.len() && gm[j] == p;
            }
            let a = choose|a: int| 0 <= a < ms.len() && ms[a] == p;
            if a > 0 {
                assert(sel_le(ms[0], ms[a]));
                let j = choose|j: int| 0 <= j < gm.len() && gm[j] == ms[0];
                assert(gm[j].1 <= ANCESTOR_CLASS_SCORE as int || gm[j] == p);
                assert(ms[0] == p);
                assert(ms[a].0 == ms[0].0);
            }
            assert(ms[0] == p);
        }
    }
    r
}

/// The selector strings are the first components of a ranked list
/// holding exactly the generator's merged offers: best score first,
/// ties in lexical order, no selector twice.
pub open spec fn ranked_strings_ok(
    ds: Seq<crate::dom::ElemModel>,
    i: int,
    strs: Seq<Seq<char>>,
) -> bool {
    exists|ms: Seq<(Seq<char>, int)>|
        #![trigger sel_sorted(ms)]
        sel_sorted(ms) && distinct_sels(ms) && ms.to_multiset() == fold_adds(
            gen_emits(ds, i),
        ).to_multiset() && strs == ms.map_values(|p: (Seq<char>, int)| p.0)
}

/// The ranked selector strings are a function of the document and the
/// anchor: any two lists meeting `ranked_strings_ok` are equal, so
/// repeated synthesis over one page returns identical lists.
pub proof fn lemma_selector_list_unique(
    ds: Seq<crate::dom::ElemModel>,
    i: int,
    s1: Seq<Seq<char>>,
    s2: Seq<Seq<char>>,
)
    requires
        ranked_strings_ok(ds, i, s1),
        ranked_strings_ok(ds, i, s2),
    ensures
        s1 == s2,
{
    let ms1 = choose|ms: Seq<(Seq<char>, int)>|
        #![trigger sel_sorted(ms)]
        sel_sorted(ms) && distinct_sels(ms) && ms.to_multiset() == fold_adds(
            gen_emits(ds, i),
        ).to_multiset() && s1 == ms.map_values(|p: (Seq<char>, int)| p.0);
    let ms2 = choose|ms: Seq<(Seq<char>, int)>|
        #![trigger sel_sorted(ms)]
        sel_sorted(ms) && distinct_sels(ms) && ms.to_multiset() == fold_adds(
            gen_emits(ds, i),
        ).to_multiset() && s2 == ms.map_values(|p: (Seq<char>, int)| p.0);
    lemma_ranking_unique(ms1, ms2);
}

/// The ranked selector strings for element `i`, best first.
pub fn synthesize_selectors(dom: &crate::dom::Dom, i: usize) -> (r: Vec<String>)
    requires
        dom.wf(),
        i < dom@.len(),
    ensures
        ({
            let e = dom@[i as int];
            &&& r@.len() > 0
            &&& (exists|j: int| 0 <= j < r@.len() && (#[trigger] r@[j])@ == e.tag)
            &&& (tag_plain(e.tag) ==> r@[r@.len() - 1]@ == e.tag)
            &&& (anc_id_shape(dom@, i as int) ==> r@[0]@ == anc_id_sel_spec(
                parent_id(dom@, i as int),
                e.tag,
            ))
            &&& (forall|x: int, y: int|
                0 <= x < y < r@.len() ==> (#[trigger] r@[x])@ != (#[trigger] r@[y])@)
            &&& ranked_strings_ok(dom@, i as int, r@.map_values(|t: String| t@))
        }),
{
    let ranked = synthesize_ranked(dom, i);
    let ghost ms = sel_models(ranked@);
    let n = ranked.len();
    let mut r: Vec<String> = Vec::new();
    let mut k: usize = 0;
    while k < n
        invariant
            k <= n,
            n == ranked@.len(),
            ms == sel_models(ranked@),
            r@.len() == k,
            forall|j: int| 0 <= j < k ==> (#[trigger] r@[j])@ == ms[j].0,
        decreases n - k,
    {
        proof {
            assert(ms[k as int] == (ranked@[k as int].0@, ranked@[k as int].1 as int));
        }
        let s = ranked[k].0.clone();
        r.push(s);
        k = k + 1;
    }
    proof {
        let e = dom@[i as int];
        let jt = choose|j: int| 0 <= j < ms.len() && (#[trigger] ms[j]).0 == e.tag;
        assert(r@[jt]@ == e.tag);
        assert(r@.map_values(|t: String| t@) =~= ms.map_values(|p: (Seq<char>, int)| p.0));
        assert(sel_sorted(ms) && distinct_sels(ms) && ms.to_multiset() == fold_adds(
            gen_emits(dom@, i as int),
        ).to_multiset() && r@.map_values(|t: String| t@) == ms.map_values(
            |p: (Seq<char>, int)| p.0,
        ));
        assert forall|x: int, y: int| 0 <= x < y < r@.len() implies (#[trigger] r@[x])@ != (
        #[trigger] r@[y])@ by {
            assert(ms[x].0 != ms[y].0);
        }
    }
    r
}

/// Derives ranked selector candidates for the tightest element whose
/// text contains `target_text`: the self-healing path. The list is
/// empty exactly when no element contains the target.
pub fn generate_selector_candidates(html: &str, target_text: &str) -> (r: Vec<String>)
    ensures
        ({
            let dm = crate::dom::dom_model(html@);
            &&& ((forall|j: int| !crate::dom::eligible(dm, target_text@, j)) ==> r@.len() == 0)
            &&& ((exists|j: int| crate::dom::eligible(dm, target_text@, j)) ==> r@.len() > 0
                && (forall|x: int, y: int|
                0 <= x < y < r@.len() ==> (#[trigger] r@[x])@ != (#[trigger] r@[y])@) && (exists|
                a: int,
            |
                #[trigger] crate::dom::is_anchor(dm, target_text@, a) && (tag_plain(dm[a].tag)
                    ==> r@[r@.len() - 1]@ == dm[a].tag) && (anc_id_shape(dm, a) ==> r@[0]@
                    == anc_id_sel_spec(parent_id(dm, a), dm[a].tag)) && ranked_strings_ok(
                    dm,
                    a,
                    r@.map_values(|t: String| t@),
                )))
        }),
{
    let d = crate::dom::parse_dom(html);
    match crate::dom::find_anchor(&d, target_text) {
        Some(a) => {
            let r = synthesize_selectors(&d, a);
            proof {
                let dm = crate::dom::dom_model(html@);
                assert(crate::dom::is_anchor(dm, target_text@, a as int));
                assert(crate::dom::eligible(dm, target_text@, a as int));
            }
            r
        },
        None => {
            let r: Vec<String> = Vec::new();
            r
        },
    }
}

} // verus!
