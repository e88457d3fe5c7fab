//! Ranked extraction candidates.
//!
//! A discovered value is carried as its text, a confidence score and a
//! human-readable justification. Candidates are merged by text — two
//! with equal text collapse into one, keeping the higher score — and
//! ranked best-first, ties broken by lexical order of the text so the
//! ranking is deterministic.

use vstd::multiset::Multiset;
use vstd::prelude::*;

verus! {

/// What one candidate looks like.
pub struct CandModel {
    pub text: Seq<char>,
    pub score: int,
    pub reason: Seq<char>,
}

/// One discovered value: its text, a confidence score, and why it was
/// chosen.
pub struct RankedCandidate {
    pub text: String,
    pub score: u32,
    pub reason: String,
}

impl View for RankedCandidate {
    type V = CandModel;

    open spec fn view(&self) -> CandModel {
        CandModel { text: self.text@, score: self.score as int, reason: self.reason@ }
    }
}

pub open spec fn cand_models(s: Seq<RankedCandidate>) -> Seq<CandModel> {
    s.map_values(|x: RankedCandidate| x@)
}

// ---------------------------------------------------------------------------
// merging by text
// ---------------------------------------------------------------------------

/// The position of the first candidate with text `t`, if any.
pub open spec fn find_text(cs: Seq<CandModel>, t: Seq<char>) -> Option<int>
    decreases cs.len(),
{
    if cs.len() == 0 {
        None
    } else if cs[0].text == t {
        Some(0)
    } else {
        match find_text(cs.drop_first(), t) {
            Some(i) => Some(i + 1),
            None => None,
        }
    }
}

pub proof fn lemma_find_text(cs: Seq<CandModel>, t: Seq<char>, i: int)
    requires
        0 <= i <= cs.len(),
        forall|j: int| 0 <= j < i ==> cs[j].text != t,
        i < cs.len() ==> cs[i].text == t,
    ensures
        i < cs.len() ==> find_text(cs, t) == Some(i),
        i == cs.len() ==> find_text(cs, t) is None,
    decreases i,
{
    if cs.len() == 0 {
    } else if i == 0 {
    } else {
        lemma_find_text(cs.drop_first(), t, i - 1);
    }
}

pub proof fn lemma_find_text_props(cs: Seq<CandModel>, t: Seq<char>)
    ensures
        match find_text(cs, t) {
            Some(i) => 0 <= i < cs.len() && cs[i].text == t && (forall|j: int|
                0 <= j < i ==> cs[j].text != t),
            None => forall|j: int| 0 <= j < cs.len() ==> cs[j].text != t,
        },
    decreases cs.len(),
{
    if cs.len() > 0 && cs[0].text != t {
        let d = cs.drop_first();
        lemma_find_text_props(d, t);
        match find_text(d, t) {
            Some(i) => {
                assert(cs[i + 1].text == d[i].text);
                assert forall|j: int| 0 <= j < i + 1 implies cs[j].text != t by {
                    if j >= 1 {
                        assert(d[j - 1].text != t);
                    }
                }
            },
            None => {
                assert forall|j: int| 0 <= j < cs.len() implies cs[j].text != t by {
                    if j >= 1 {
                        assert(d[j - 1].text != t);
                    }
                }
            },
        }
    }
}

/// The list after offering candidate `c`: on a text collision the
/// higher score wins (the incumbent stays on a tie), otherwise `c` is
/// appended.
pub open spec fn merge_spec(cs: Seq<CandModel>, c: CandModel) -> Seq<CandModel> {
    match find_text(cs, c.text) {
        Some(i) => if c.score > cs[i].score {
            cs.update(i, c)
        } else {
            cs
        },
        None => cs.push(c),
    }
}

/// No two candidates carry the same text.
pub open spec fn distinct_texts(cs: Seq<CandModel>) -> bool {
    forall|i: int, j: int| 0 <= i < j < cs.len() ==> cs[i].text != cs[j].text
}

/// Offering the same candidate twice changes nothing beyond the first
/// offer: the merge is idempotent.
pub proof fn lemma_merge_idempotent(cs: Seq<CandModel>, c: CandModel)
    ensures
        merge_spec(merge_spec(cs, c), c) == merge_spec(cs, c),
{
    lemma_find_text_props(cs, c.text);
    let cs1 = merge_spec(cs, c);
    match find_text(cs, c.text) {
        None => {
            lemma_find_text(cs1, c.text, cs.len() as int);
        },
        Some(i) => {
            if c.score > cs[i].score {
                lemma_find_text(cs1, c.text, i);
            }
        },
    }
}

/// Merging keeps texts pairwise distinct.
pub proof fn lemma_merge_distinct(cs: Seq<CandModel>, c: CandModel)
    requires
        distinct_texts(cs),
    ensures
        distinct_texts(merge_spec(cs, c)),
{
    lemma_find_text_props(cs, c.text);
}

/// Offers `c` to the list, merging by text and keeping the higher
/// score on a collision.
pub fn merge_candidate(list: &mut Vec<RankedCandidate>, c: RankedCandidate)
    ensures
        cand_models(final(list)@) == merge_spec(cand_models(old(list)@), c@),
{
    let ghost cs = cand_models(list@);
    let ghost cv = c@;
    let n = list.len();
    let mut found: usize = n;
    let mut i: usize = 0;
    while i < n
        invariant
            i <= n,
            n == list@.len(),
            cs == cand_models(list@),
            cv == c@,
            found == n || (found < i && cs[found as int].text == cv.text && (forall|j: int|
                0 <= j < found ==> cs[j].text != cv.text)),
            found == n ==> forall|j: int| 0 <= j < i ==> cs[j].text != cv.text,
        decreases n - i,
    {
        proof {
            assert(cs[i as int] == list@[i as int]@);
        }
        if found == n && crate::text::eq_str(list[i].text.as_str(), c.text.as_str()) {
            found = i;
        }
        i = i + 1;
    }
    if found < n {
        proof {
            lemma_find_text(cs, cv.text, found as int);
        }
        if c.score > list[found].score {
            list.remove(found);
            list.insert(found, c);
            proof {
                assert(cand_models(list@) =~= cs.update(found as int, cv));
            }
        }
    } else {
        proof {
            lemma_find_text(cs, cv.text, n as int);
        }
        list.push(c);
        proof {
            assert(cand_models(list@) =~= cs.push(cv));
        }
    }
}

// ---------------------------------------------------------------------------
// lexicographic order on text
// ---------------------------------------------------------------------------

/// Lexicographic order on character sequences, by code point.
pub open spec fn lex_le(a: Seq<char>, b: Seq<char>) -> bool
    decreases a.len(),
{
    if a.len() == 0 {
        true
    } else if b.len() == 0 {
        false
    } else if (a[0] as int) < (b[0] as int) {
        true
    } else if (a[0] as int) > (b[0] as int) {
        false
    } else {
        lex_le(a.drop_first(), b.drop_first())
    }
}

pub proof fn lemma_lex_total(a: Seq<char>, b: Seq<char>)
    ensures
        lex_le(a, b) || lex_le(b, a),
    decreases a.len(),
{
    if a.len() > 0 && b.len() > 0 && a[0] == b[0] {
        lemma_lex_total(a.drop_first(), b.drop_first());
    }
}

pub proof fn lemma_lex_trans(a: Seq<char>, b: Seq<char>, c: Seq<char>)
    requires
        lex_le(a, b),
        lex_le(b, c),
    ensures
        lex_le(a, c),
    decreases a.len(),
{
    if a.len() > 0 && b.len() > 0 && c.len() > 0 && a[0] == b[0] && b[0] == c[0] {
        lemma_lex_trans(a.drop_first(), b.drop_first(), c.drop_first());
    }
}

/// Lexicographic order is antisymmetric.
pub proof fn lemma_lex_antisym(a: Seq<char>, b: Seq<char>)
    requires
        lex_le(a, b),
        lex_le(b, a),
    ensures
        a == b,
    decreases a.len(),
{
    if a.len() == 0 {
        assert(b.len() == 0);
        assert(a =~= b);
    } else {
        assert(b.len() > 0);
        assert(a[0] == b[0]);
        let at = a.drop_first();
        let bt = b.drop_first();
        assert(lex_le(at, bt));
        assert(lex_le(bt, at));
        lemma_lex_antisym(at, bt);
        assert(a.len() == b.len());
        assert forall|j: int| 0 <= j < a.len() implies a[j] == b[j] by {
            if j > 0 {
                assert(at[j - 1] == a[j]);
                assert(bt[j - 1] == b[j]);
                assert(at[j - 1] == bt[j - 1]);
            }
        }
        assert(a =~= b);
    }
}

proof fn lemma_lex_skip(a: Seq<char>, b: Seq<char>, i: int)
    requires
        0 <= i <= a.len(),
        i <= b.len(),
        forall|k: int| 0 <= k < i ==> a[k] == b[k],
    ensures
        lex_le(a, b) == lex_le(a.skip(i), b.skip(i)),
    decreases i,
{
    if i == 0 {
        assert(a.skip(0) =~= a);
        assert(b.skip(0) =~= b);
    } else {
        assert(a[0] == b[0]);
        lemma_lex_skip(a.drop_first(), b.drop_first(), i - 1);
        assert(a.drop_first().skip(i - 1) =~= a.skip(i));
        assert(b.drop_first().skip(i - 1) =~= b.skip(i));
    }
}

/// Decides `lex_le` on two strings.
pub fn str_le(a: &str, b: &str) -> (r: bool)
    ensures
        r == lex_le(a@, b@),
{
    let va = crate::text::str_chars(a);
    let vb = crate::text::str_chars(b);
    let na = va.len();
    let nb = vb.len();
    let mut i: usize = 0;
    while i < na && i < nb
        invariant
            i <= na,
            i <= nb,
            na == a@.len(),
            nb == b@.len(),
            va@ == a@,
            vb@ == b@,
            forall|k: int| 0 <= k < i ==> a@[k] == b@[k],
        decreases na - i,
    {
        let ca = va[i];
        let cb = vb[i];
        if ca != cb {
            proof {
                lemma_lex_skip(a@, b@, i as int);
                assert(a@.skip(i as int)[0] == a@[i as int]);
                assert(b@.skip(i as int)[0] == b@[i as int]);
                assert(a@.skip(i as int).len() > 0);
                assert(b@.skip(i as int).len() > 0);
            }
            return ca < cb;
        }
        i = i + 1;
    }
    proof {
        lemma_lex_skip(a@, b@, i as int);
        if i == na {
            assert(a@.skip(i as int).len() == 0);
        } else {
            assert(b@.skip(i as int).len() == 0);
            assert(a@.skip(i as int).len() > 0);
        }
    }
    na <= nb
}

// ---------------------------------------------------------------------------
// ranking
// ---------------------------------------------------------------------------

/// `a` may stand at or before `b` in a ranked list: a higher score
/// comes first, and equal scores are ordered by text.
pub open spec fn cand_le(a: CandModel, b: CandModel) -> bool {
    a.score > b.score || (a.score == b.score && lex_le(a.text, b.text))
}

/// Ranked best-first, ties in lexical order of text.
pub open spec fn cand_sorted(cs: Seq<CandModel>) -> bool {
    forall|i: int, j: int| 0 <= i < j < cs.len() ==> cand_le(cs[i], cs[j])
}

proof fn lemma_cand_le_total(a: CandModel, b: CandModel)
    ensures
        cand_le(a, b) || cand_le(b, a),
{
    lemma_lex_total(a.text, b.text);
}

proof fn lemma_cand_le_trans(a: CandModel, b: CandModel, c: CandModel)
    requires
        cand_le(a, b),
        cand_le(b, c),
    ensures
        cand_le(a, c),
{
    if a.score == b.score && b.score == c.score {
        lemma_lex_trans(a.text, b.text, c.text);
    }
}

fn cand_before(a: &RankedCandidate, b: &RankedCandidate) -> (r: bool)
    ensures
        r == cand_le(a@, b@),
{
    if a.score > b.score {
        true
    } else if a.score == b.score {
        str_le(a.text.as_str(), b.text.as_str())
    } else {
        false
    }
}

/// Ranks the candidates best-first (score descending, ties by lexical
/// order of text). The result holds exactly the given candidates, and
/// distinct texts stay distinct.
pub fn sort_candidates(v: Vec<RankedCandidate>) -> (r: Vec<RankedCandidate>)
    ensures
        cand_sorted(cand_models(r@)),
        cand_models(r@).to_multiset() == cand_models(v@).to_multiset(),
        distinct_texts(cand_models(v@)) ==> distinct_texts(cand_models(r@)),
        r@.len() == v@.len(),
{
    broadcast use vstd::seq_lib::group_to_multiset_ensures;
    broadcast use vstd::multiset::group_multiset_axioms;

    let ghost orig = cand_models(v@);
    let mut rest = v;
    let mut out: Vec<RankedCandidate> = Vec::new();
    while rest.len() > 0
        invariant
            cand_sorted(cand_models(out@)),
            cand_models(out@).to_multiset().add(cand_models(rest@).to_multiset())
                =~= orig.to_multiset(),
            out@.len() + rest@.len() == orig.len(),
            forall|x: int, y: int|
                0 <= x < out@.len() && 0 <= y < rest@.len() ==> cand_le(
                    #[trigger] cand_models(out@)[x],
                    #[trigger] cand_models(rest@)[y],
                ),
            distinct_texts(orig) ==> (distinct_texts(cand_models(out@)) && distinct_texts(
                cand_models(rest@),
            ) && (forall|x: int, y: int|
                0 <= x < out@.len() && 0 <= y < rest@.len() ==> (#[trigger] cand_models(
                    out@,
                )[x]).text != (#[trigger] cand_models(rest@)[y]).text)),
        decreases rest@.len(),
    {
        let ghost pre = cand_models(rest@);
        let ghost preout = cand_models(out@);
        // select the entry that belongs first among the rest
        let m = rest.len();
        let mut bi: usize = 0;
        let mut k: usize = 1;
        proof {
            lemma_cand_le_total(pre[0], pre[0]);
        }
        while k < m
            invariant
                bi < k <= m,
                m == rest@.len(),
                pre == cand_models(rest@),
                forall|j: int| 0 <= j < k ==> cand_le(pre[bi as int], #[trigger] pre[j]),
            decreases m - k,
        {
            if !cand_before(&rest[bi], &rest[k]) {
                proof {
                    assert(pre[bi as int] == rest@[bi as int]@);
                    assert(pre[k as int] == rest@[k as int]@);
                    lemma_cand_le_total(pre[bi as int], pre[k as int]);
                    assert forall|j: int| 0 <= j < k + 1 implies cand_le(
                        pre[k as int],
                        #[trigger] pre[j],
                    ) by {
                        if j < k {
                            lemma_cand_le_trans(pre[k as int], pre[bi as int], pre[j]);
                        } else {
                            lemma_cand_le_total(pre[k as int], pre[k as int]);
                        }
                    }
                }
                bi = k;
            }
            k = k + 1;
        }
        let best = rest.remove(bi);
        let ghost bv = best@;
        proof {
            assert(bv == pre[bi as int]);
            vstd::seq_lib::to_multiset_remove(pre, bi as int);
            let restp = pre.remove(bi as int);
            assert(cand_models(rest@) =~= restp);
            let outp = preout.push(bv);
            vstd::seq_lib::to_multiset_build(preout, bv);
            assert(pre.contains(pre[bi as int])) by {
                assert(pre[bi as int] == pre[bi as int]);
            }
            vstd::seq_lib::to_multiset_contains(pre, pre[bi as int]);
            // the chosen entry comes at or before everything still unsorted
            assert forall|y: int| 0 <= y < restp.len() implies cand_le(bv, #[trigger] restp[y]) by {
                if y < bi {
                    assert(restp[y] == pre[y]);
                } else {
                    assert(restp[y] == pre[y + 1]);
                }
            }
            // the grown prefix stays sorted
            assert forall|x: int, y: int| 0 <= x < y < outp.len() implies cand_le(
                #[trigger] outp[x],
                #[trigger] outp[y],
            ) by {
                if y < preout.len() {
                    assert(cand_le(preout[x], preout[y]));
                } else {
                    assert(cand_le(preout[x], pre[bi as int]));
                }
            }
            // and it still comes before everything unsorted
            assert forall|x: int, y: int|
                0 <= x < outp.len() && 0 <= y < restp.len() implies cand_le(
                #[trigger] outp[x],
                #[trigger] restp[y],
            ) by {
                let py = if y < bi { y } else { y + 1 };
                assert(restp[y] == pre[py]);
                if x < preout.len() {
                    assert(cand_le(preout[x], pre[py]));
                } else {
                    assert(cand_le(bv, restp[y]));
                }
            }
            if distinct_texts(orig) {
                assert forall|x: int, y: int| 0 <= x < y < outp.len() implies (
                #[trigger] outp[x]).text != (#[trigger] outp[y]).text by {
                    if y < preout.len() {
                        assert(preout[x].text != preout[y].text);
                    } else {
                        assert(preout[x].text != pre[bi as int].text);
                    }
                }
                assert forall|x: int, y: int| 0 <= x < y < restp.len() implies (
                #[trigger] restp[x]).text != (#[trigger] restp[y]).text by {
                    let px = if x < bi { x } else { x + 1 };
                    let py = if y < bi { y } else { y + 1 };
                    assert(restp[x] == pre[px]);
                    assert(restp[y] == pre[py]);
                }
                assert forall|x: int, y: int|
                    0 <= x < outp.len() && 0 <= y < restp.len() implies (
                #[trigger] outp[x]).text != (#[trigger] restp[y]).text by {
                    let py = if y < bi { y } else { y + 1 };
                    assert(restp[y] == pre[py]);
                    if x < preout.len() {
                        assert(preout[x].text != pre[py].text);
                    } else {
                        assert(pre[bi as int].text != pre[py].text);
                    }
                }
            }
        }
        out.push(best);
        proof {
            assert(cand_models(out@) =~= preout.push(bv));
            assert(cand_models(out@).to_multiset().add(cand_models(rest@).to_multiset())
                =~= orig.to_multiset());
        }
    }
    proof {
        assert(cand_models(rest@).to_multiset() =~= Multiset::<CandModel>::empty());
        assert(cand_models(out@).to_multiset().add(Multiset::<CandModel>::empty())
            =~= cand_models(out@).to_multiset());
        assert(cand_models(out@).to_multiset() =~= orig.to_multiset());
        vstd::seq_lib::to_multiset_len(cand_models(out@));
        vstd::seq_lib::to_multiset_len(orig);
    }
    out
}


// ---------------------------------------------------------------------------
// facts that survive merging and ranking
// ---------------------------------------------------------------------------

/// Some candidate carries text `t`.
pub open spec fn text_present(cs: Seq<CandModel>, t: Seq<char>) -> bool {
    exists|j: int| 0 <= j < cs.len() && (#[trigger] cs[j]).text == t
}

/// A property that holds of every candidate and of the offer holds of
/// every candidate after the merge.
pub proof fn lemma_merge_all(cs: Seq<CandModel>, c: CandModel, q: spec_fn(CandModel) -> bool)
    requires
        forall|j: int| 0 <= j < cs.len() ==> q(#[trigger] cs[j]),
        q(c),
    ensures
        forall|j: int| 0 <= j < merge_spec(cs, c).len() ==> q(#[trigger] merge_spec(cs, c)[j]),
{
    lemma_find_text_props(cs, c.text);
}

/// After the merge the offered text is present.
pub proof fn lemma_merge_has_text(cs: Seq<CandModel>, c: CandModel)
    ensures
        text_present(merge_spec(cs, c), c.text),
{
    lemma_find_text_props(cs, c.text);
    let merged = merge_spec(cs, c);
    match find_text(cs, c.text) {
        Some(i) => {
            assert(merged[i].text == c.text);
        },
        None => {
            assert(merged[cs.len() as int].text == c.text);
        },
    }
}

/// A text already present stays present through a merge.
pub proof fn lemma_merge_keeps_text(cs: Seq<CandModel>, c: CandModel, t: Seq<char>)
    requires
        text_present(cs, t),
    ensures
        text_present(merge_spec(cs, c), t),
{
    lemma_find_text_props(cs, c.text);
    let j = choose|j: int| 0 <= j < cs.len() && (#[trigger] cs[j]).text == t;
    let merged = merge_spec(cs, c);
    match find_text(cs, c.text) {
        Some(i) => {
            if c.score > cs[i].score && i == j {
                assert(merged[j].text == t);
            } else {
                assert(merged[j].text == t);
            }
        },
        None => {
            assert(merged[j].text == t);
        },
    }
}

/// A property of every candidate transfers to any reordering with the
/// same contents.
pub proof fn lemma_all_transfer(a: Seq<CandModel>, b: Seq<CandModel>, q: spec_fn(CandModel) -> bool)
    requires
        a.to_multiset() == b.to_multiset(),
        forall|j: int| 0 <= j < a.len() ==> q(#[trigger] a[j]),
    ensures
        forall|j: int| 0 <= j < b.len() ==> q(#[trigger] b[j]),
{
    assert forall|k: int| 0 <= k < b.len() implies q(b[k]) by {
        assert(b.contains(b[k]));
        vstd::seq_lib::to_multiset_contains(a, b[k]);
        vstd::seq_lib::to_multiset_contains(b, b[k]);
        let j = choose|j: int| 0 <= j < a.len() && a[j] == b[k];
    }
}

/// A present text stays present in any reordering with the same
/// contents.
pub proof fn lemma_text_transfer(a: Seq<CandModel>, b: Seq<CandModel>, t: Seq<char>)
    requires
        a.to_multiset() == b.to_multiset(),
        text_present(a, t),
    ensures
        text_present(b, t),
{
    let j = choose|j: int| 0 <= j < a.len() && (#[trigger] a[j]).text == t;
    assert(a.contains(a[j]));
    vstd::seq_lib::to_multiset_contains(a, a[j]);
    vstd::seq_lib::to_multiset_contains(b, a[j]);
    let k = choose|k: int| 0 <= k < b.len() && b[k] == a[j];
    assert(b[k].text == t);
}

} // verus!
