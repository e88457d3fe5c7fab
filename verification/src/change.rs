//! The change-string parser.
//!
//! A combined change blob has the shape `"<amount> (<percent>)"`: the
//! absolute change, then the relative change in parentheses. The
//! parser splits it positionally at the first `(`; when no `(` is
//! present the whole (trimmed) input is the absolute part and the
//! percent part is empty.

use vstd::prelude::*;

use crate::text::after_char_spec;
use crate::text::collapse_ws;
use crate::text::collapse_ws_spec;
use crate::text::cut_at_char;
use crate::text::cut_at_char_spec;
use crate::text::trim_spec;
use crate::text::trim_str;

verus! {

/// The absolute part: everything before the first `(` of the
/// whitespace-collapsed input, trimmed.
pub open spec fn change_abs_spec(s: Seq<char>) -> Seq<char> {
    trim_spec(cut_at_char_spec(collapse_ws_spec(s), '('))
}

/// The percent part: everything between the first `(` of the
/// whitespace-collapsed input and the next `)`, trimmed; empty when
/// there is no `(`.
pub open spec fn change_pct_spec(s: Seq<char>) -> Seq<char> {
    trim_spec(cut_at_char_spec(after_char_spec(collapse_ws_spec(s), '('), ')'))
}

/// Splits a combined "absolute (percent)" change blob into its two
/// fields. Embedded newlines and other whitespace runs are collapsed
/// to single spaces before splitting, and both fields are trimmed.
pub fn parse_change(combined: &str) -> (r: (String, String))
    ensures
        r.0@ == change_abs_spec(combined@),
        r.1@ == change_pct_spec(combined@),
{
    let norm = collapse_ws(combined);
    let abs_raw = cut_at_char(norm.as_str(), '(');
    let abs = trim_str(abs_raw.as_str());
    let rest = crate::text::after_char(norm.as_str(), '(');
    let pct_raw = cut_at_char(rest.as_str(), ')');
    let pct = trim_str(pct_raw.as_str());
    (abs, pct)
}

} // verus!
