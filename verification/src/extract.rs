//! The embedded-state extractor.
//!
//! Financial pages often embed a JSON object literal in script text,
//! announced by a marker token and an equals sign and ended by a
//! semicolon. The extractor isolates that object best-effort — a
//! deeply nested payload or one holding a literal `};` inside a string
//! may truncate, an acknowledged limitation — parses it as JSON, and
//! collects the string values at fixed key paths. A missing marker or
//! unparsable payload yields an empty mapping, never an error.

use vstd::prelude::*;
use vstd::string::StrSliceExecFns;

use crate::backend::json_str_at;
use crate::backend::json_string_at;
use crate::text::first_sub_index;
use crate::text::lemma_first_sub_index;
use crate::text::matches_at;
use crate::text::str_chars;
use crate::text::vec_suffix;

verus! {

/// The marker announcing the embedded state object, including the
/// assignment and the opening brace.
pub open spec fn state_prefix() -> Seq<char> {
    "window.__PRELOADED_STATE__ = {"@
}

/// The embedded object text: from the marker's opening brace through
/// the closing brace of the first following `};`, when both exist.
pub open spec fn state_capture(h: Seq<char>) -> Option<Seq<char>> {
    match first_sub_index(h, state_prefix()) {
        Some(i) => {
            let bs = i + state_prefix().len() - 1;
            match first_sub_index(h.skip(bs), "};"@) {
                Some(k) => Some(h.subrange(bs, bs + k + 1)),
                None => None,
            }
        },
        None => None,
    }
}

/// Isolates the embedded state object from raw page text.
pub fn capture_state(html: &str) -> (r: Option<String>)
    ensures
        match r {
            Some(c) => state_capture(html@) == Some(c@),
            None => state_capture(html@) is None,
        },
{
    proof {
        reveal_strlit("window.__PRELOADED_STATE__ = {");
        reveal_strlit("};");
    }
    let hv = str_chars(html);
    let pv = str_chars("window.__PRELOADED_STATE__ = {");
    let found = crate::text::find_sub(&hv, &pv);
    match found {
        None => {
            proof {
                assert forall|j: int| !matches_at(html@, state_prefix(), j) by {
                    if matches_at(html@, state_prefix(), j) {
                        assert(crate::text::contains_seq(html@, state_prefix()));
                    }
                }
                lemma_first_sub_index(html@, state_prefix(), 0);
            }
            None
        },
        Some(i) => {
            let hn = hv.len();
            proof {
                lemma_first_sub_index(html@, state_prefix(), i as int);
                assert(state_prefix().len() == 30);
                assert(i + pv@.len() <= hn);
            }
            let bs = i + pv.len() - 1;
            let tail = vec_suffix(&hv, bs);
            let ev = str_chars("};");
            match crate::text::find_sub(&tail, &ev) {
                None => {
                    proof {
                        assert forall|j: int| !matches_at(html@.skip(bs as int), "};"@, j) by {
                            if matches_at(html@.skip(bs as int), "};"@, j) {
                                assert(crate::text::contains_seq(html@.skip(bs as int), "};"@));
                            }
                        }
                        lemma_first_sub_index(html@.skip(bs as int), "};"@, 0);
                    }
                    None
                },
                Some(k) => {
                    proof {
                        lemma_first_sub_index(html@.skip(bs as int), "};"@, k as int);
                        assert(matches_at(html@.skip(bs as int), "};"@, k as int));
                        assert(k + 2 <= html@.skip(bs as int).len());
                        assert(html@.skip(bs as int).len() == html@.len() - bs);
                        assert(bs + k + 1 < hn);
                    }
                    let cut = html.substring_char(bs, bs + k + 1);
                    Some(cut.to_owned())
                },
            }
        },
    }
}

/// One extracted entry: the key path and the string found at it.
pub struct StateEntry {
    pub path: Vec<String>,
    pub value: String,
}

fn clone_strings(v: &Vec<String>) -> (r: Vec<String>)
    ensures
        r@ == v@,
{
    let n = v.len();
    let mut r: Vec<String> = Vec::new();
    let mut i: usize = 0;
    while i < n
        invariant
            i <= n,
            n == v@.len(),
            r@ == v@.subrange(0, i as int),
        decreases n - i,
    {
        let s = v[i].clone();
        proof {
            assert(v@.subrange(0, i as int + 1) =~= v@.subrange(0, i as int).push(v@[i as int]));
        }
        r.push(s);
        i = i + 1;
    }
    proof {
        assert(v@.subrange(0, n as int) =~= v@);
    }
    r
}

/// The mapping owed for the captured object `cap`: one entry per
/// requested path whose lookup yields a string, in request order.
pub open spec fn state_entries_spec(cap: Seq<char>, paths: Seq<Seq<Seq<char>>>) -> Seq<
    (Seq<Seq<char>>, Seq<char>),
>
    decreases paths.len(),
{
    if paths.len() == 0 {
        Seq::empty()
    } else {
        let head = match json_str_at(cap, paths[0]) {
            Some(v) => seq![(paths[0], v)],
            None => Seq::<(Seq<Seq<char>>, Seq<char>)>::empty(),
        };
        head + state_entries_spec(cap, paths.drop_first())
    }
}

/// The view of the extracted entries: each entry's path and value.
pub open spec fn entry_models(es: Seq<StateEntry>) -> Seq<(Seq<Seq<char>>, Seq<char>)> {
    es.map_values(|e: StateEntry| (e.path.deep_view(), e.value@))
}

/// Walks the given key paths through the embedded state object and
/// collects whatever string values exist there. Without a marker, a
/// terminator or parsable JSON the mapping is empty; a missing key is
/// simply absent, never an error. The result holds exactly the
/// requested paths that resolve to strings, in request order.
pub fn extract_embedded_state(html: &str, paths: &Vec<Vec<String>>) -> (r: Vec<StateEntry>)
    ensures
        state_capture(html@) is None ==> r@.len() == 0,
        (state_capture(html@) matches Some(cap) ==> entry_models(r@) == state_entries_spec(
            cap,
            paths.deep_view(),
        )),
{
    let mut out: Vec<StateEntry> = Vec::new();
    let cap = match capture_state(html) {
        Some(c) => c,
        None => {
            return out;
        },
    };
    let ghost capv = cap@;
    let ghost pd = paths.deep_view();
    let n = paths.len();
    let mut p: usize = 0;
    proof {
        assert(pd.skip(0) =~= pd);
        assert(entry_models(out@) + state_entries_spec(capv, pd) =~= state_entries_spec(
            capv,
            pd,
        ));
    }
    while p < n
        invariant
            p <= n,
            n == paths@.len(),
            n == pd.len(),
            pd == paths.deep_view(),
            state_capture(html@) == Some(capv),
            capv == cap@,
            state_entries_spec(capv, pd) == entry_models(out@) + state_entries_spec(
                capv,
                pd.skip(p as int),
            ),
        decreases n - p,
    {
        proof {
            assert(pd[p as int] == paths@[p as int].deep_view());
            assert(pd.skip(p as int)[0] == pd[p as int]);
            assert(pd.skip(p as int).drop_first() =~= pd.skip(p as int + 1));
        }
        match json_string_at(cap.as_str(), &paths[p]) {
            Some(v) => {
                let entry = StateEntry { path: clone_strings(&paths[p]), value: v };
                let ghost preout = out@;
                proof {
                    assert(entry.path.deep_view() =~= paths@[p as int].deep_view());
                }
                out.push(entry);
                proof {
                    assert(entry_models(out@) =~= entry_models(preout).push(
                        (pd[p as int], entry.value@),
                    ));
                    assert(state_entries_spec(capv, pd.skip(p as int)) == seq![
                        (pd[p as int], entry.value@),
                    ] + state_entries_spec(capv, pd.skip(p as int + 1)));
                    assert(entry_models(out@) + state_entries_spec(capv, pd.skip(p as int + 1))
                        =~= entry_models(preout) + state_entries_spec(
                        capv,
                        pd.skip(p as int),
                    ));
                }
            },
            None => {},
        }
        p = p + 1;
    }
    proof {
        assert(pd.skip(n as int).len() == 0);
        assert(state_entries_spec(capv, pd.skip(n as int)) =~= Seq::<
            (Seq<Seq<char>>, Seq<char>),
        >::empty());
        assert(entry_models(out@) + state_entries_spec(capv, pd.skip(n as int)) =~= entry_models(
            out@,
        ));
    }
    out
}

} // verus!
