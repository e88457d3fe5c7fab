//! Verified character and string utilities.
//!
//! Everything in this crate that inspects text (trimming, substring
//! search, token splitting, numeric-shape tests) goes through the
//! functions here, each proved against a direct mathematical
//! description of its result.

use vstd::prelude::*;
use vstd::string::*;

verus! {

// ---------------------------------------------------------------------------
// character classes
// ---------------------------------------------------------------------------

/// Whitespace for trimming and token splitting: the Unicode
/// white-space class — the ASCII space characters, the next line, the
/// no-break and ogham spaces, the typographic space range, the line
/// and paragraph separators, and the narrow, medium and ideographic
/// spaces.
pub open spec fn is_space_char(c: char) -> bool {
    c == ' ' || c == '\t' || c == '\n' || c == '\r' || c == '\u{000B}' || c == '\u{000C}'
        || c == '\u{0085}' || c == '\u{00A0}' || c == '\u{1680}' || (0x2000 <= c as int && c
        as int <= 0x200A) || c == '\u{2028}' || c == '\u{2029}' || c == '\u{202F}'
        || c == '\u{205F}' || c == '\u{3000}'
}

pub fn is_space(c: char) -> (b: bool)
    ensures
        b == is_space_char(c),
{
    let u = c as u32;
    c == ' ' || c == '\t' || c == '\n' || c == '\r' || c == '\u{000B}' || c == '\u{000C}'
        || c == '\u{0085}' || c == '\u{00A0}' || c == '\u{1680}' || (0x2000 <= u && u
        <= 0x200A) || c == '\u{2028}' || c == '\u{2029}' || c == '\u{202F}' || c == '\u{205F}'
        || c == '\u{3000}'
}

pub open spec fn is_digit_char(c: char) -> bool {
    48 <= c as int && c as int <= 57
}

pub fn is_digit(c: char) -> (b: bool)
    ensures
        b == is_digit_char(c),
{
    let u = c as u32;
    48 <= u && u <= 57
}

// ---------------------------------------------------------------------------
// characters of a string
// ---------------------------------------------------------------------------

/// The characters of `s`, as a vector with random access.
pub fn str_chars(s: &str) -> (v: Vec<char>)
    ensures
        v@ == s@,
{
    let n = s.unicode_len();
    let mut v: Vec<char> = Vec::new();
    let mut i: usize = 0;
    while i < n
        invariant
            i <= n,
            n == s@.len(),
            v@ == s@.subrange(0, i as int),
        decreases n - i,
    {
        let c = s.get_char(i);
        v.push(c);
        proof {
            assert(s@.subrange(0, i as int + 1) =~= s@.subrange(0, i as int).push(s@[i as int]));
        }
        i = i + 1;
    }
    proof {
        assert(s@.subrange(0, n as int) =~= s@);
    }
    v
}

/// Character-wise string equality.
pub fn eq_str(a: &str, b: &str) -> (r: bool)
    ensures
        r == (a@ == b@),
{
    let n = a.unicode_len();
    let m = b.unicode_len();
    if n != m {
        return false;
    }
    let mut i: usize = 0;
    while i < n
        invariant
            i <= n,
            n == a@.len(),
            n == b@.len(),
            forall|k: int| 0 <= k < i ==> a@[k] == b@[k],
        decreases n - i,
    {
        if a.get_char(i) != b.get_char(i) {
            return false;
        }
        i = i + 1;
    }
    proof {
        assert(a@ =~= b@);
    }
    true
}

/// The two characters are equal up to ASCII case.
pub open spec fn eq_ci_char(a: char, b: char) -> bool {
    a == b || (65 <= a as int <= 90 && b as int == a as int + 32) || (65 <= b as int <= 90
        && a as int == b as int + 32)
}

/// The two strings are equal up to ASCII case.
pub open spec fn eq_ci(x: Seq<char>, y: Seq<char>) -> bool {
    x.len() == y.len() && forall|i: int| 0 <= i < x.len() ==> eq_ci_char(x[i], y[i])
}

/// Character-wise string equality up to ASCII case.
pub fn eq_str_ci(a: &str, b: &str) -> (r: bool)
    ensures
        r == eq_ci(a@, b@),
{
    let n = a.unicode_len();
    let m = b.unicode_len();
    if n != m {
        return false;
    }
    let mut i: usize = 0;
    while i < n
        invariant
            i <= n,
            n == a@.len(),
            n == b@.len(),
            forall|k: int| 0 <= k < i ==> eq_ci_char(a@[k], b@[k]),
        decreases n - i,
    {
        let ca = a.get_char(i) as u32;
        let cb = b.get_char(i) as u32;
        let same = ca == cb || (65 <= ca && ca <= 90 && cb == ca + 32) || (65 <= cb && cb <= 90
            && ca == cb + 32);
        if !same {
            return false;
        }
        i = i + 1;
    }
    true
}

// ---------------------------------------------------------------------------
// trimming
// ---------------------------------------------------------------------------

pub open spec fn trim_start_spec(s: Seq<char>) -> Seq<char>
    decreases s.len(),
{
    if s.len() > 0 && is_space_char(s[0]) {
        trim_start_spec(s.drop_first())
    } else {
        s
    }
}

pub open spec fn trim_end_spec(s: Seq<char>) -> Seq<char>
    decreases s.len(),
{
    if s.len() > 0 && is_space_char(s.last()) {
        trim_end_spec(s.drop_last())
    } else {
        s
    }
}

/// The string without leading and trailing whitespace.
pub open spec fn trim_spec(s: Seq<char>) -> Seq<char> {
    trim_end_spec(trim_start_spec(s))
}

proof fn lemma_trim_start_skip(s: Seq<char>, i: int)
    requires
        0 <= i <= s.len(),
        forall|k: int| 0 <= k < i ==> is_space_char(s[k]),
    ensures
        trim_start_spec(s) == trim_start_spec(s.subrange(i, s.len() as int)),
    decreases i,
{
    if i > 0 {
        assert(s.drop_first() =~= s.subrange(1, s.len() as int));
        lemma_trim_start_skip(s.subrange(1, s.len() as int), i - 1);
        assert(s.subrange(1, s.len() as int).subrange(i - 1, s.len() - 1) =~= s.subrange(
            i,
            s.len() as int,
        ));
    } else {
        assert(s.subrange(0, s.len() as int) =~= s);
    }
}

proof fn lemma_trim_end_skip(s: Seq<char>, j: int)
    requires
        0 <= j <= s.len(),
        forall|k: int| j <= k < s.len() ==> is_space_char(s[k]),
    ensures
        trim_end_spec(s) == trim_end_spec(s.subrange(0, j)),
    decreases s.len() - j,
{
    if j < s.len() {
        assert(is_space_char(s.last()));
        assert(s.drop_last() =~= s.subrange(0, s.len() - 1));
        lemma_trim_end_skip(s.subrange(0, s.len() - 1), j);
        assert(s.subrange(0, s.len() - 1).subrange(0, j) =~= s.subrange(0, j));
    } else {
        assert(s.subrange(0, s.len() as int) =~= s);
    }
}

/// A copy of `s` with leading and trailing whitespace removed.
pub fn trim_str(s: &str) -> (r: String)
    ensures
        r@ == trim_spec(s@),
{
    let n = s.unicode_len();
    let mut i: usize = 0;
    while i < n && is_space(s.get_char(i))
        invariant
            i <= n,
            n == s@.len(),
            forall|k: int| 0 <= k < i ==> is_space_char(s@[k]),
        decreases n - i,
    {
        i = i + 1;
    }
    let mut j: usize = n;
    while j > i && is_space(s.get_char(j - 1))
        invariant
            i <= j <= n,
            n == s@.len(),
            forall|k: int| j <= k < n ==> is_space_char(s@[k]),
        decreases j,
    {
        j = j - 1;
    }
    proof {
        let mid = s@.subrange(i as int, n as int);
        lemma_trim_start_skip(s@, i as int);
        // the first character of `mid`, if any, is not whitespace
        assert(trim_start_spec(mid) == mid);
        lemma_trim_end_skip(mid, j - i);
        assert(mid.subrange(0, j - i) =~= s@.subrange(i as int, j as int));
        // the last character of the kept part, if any, is not whitespace
        assert(j > i ==> s@.subrange(i as int, j as int).last() == s@[j - 1]);
        assert(trim_end_spec(s@.subrange(i as int, j as int)) == s@.subrange(
            i as int,
            j as int,
        ));
    }
    let cut = s.substring_char(i, j);
    cut.to_owned()
}

// ---------------------------------------------------------------------------
// substring search
// ---------------------------------------------------------------------------

/// The needle `n` occurs in `h` starting at position `i`.
pub open spec fn matches_at(h: Seq<char>, n: Seq<char>, i: int) -> bool {
    0 <= i && i + n.len() <= h.len() && h.subrange(i, i + n.len() as int) == n
}

/// The needle `n` occurs somewhere in `h`.
pub open spec fn contains_seq(h: Seq<char>, n: Seq<char>) -> bool {
    exists|i: int| matches_at(h, n, i)
}

pub fn check_match_at(h: &Vec<char>, n: &Vec<char>, i: usize) -> (b: bool)
    requires
        i + n@.len() <= h@.len(),
    ensures
        b == matches_at(h@, n@, i as int),
{
    let hn = h.len();
    let nn = n.len();
    let mut k: usize = 0;
    while k < nn
        invariant
            k <= nn,
            hn == h@.len(),
            nn == n@.len(),
            i + nn <= hn,
            forall|t: int| 0 <= t < k ==> h@[i + t] == n@[t],
        decreases nn - k,
    {
        if h[i + k] != n[k] {
            proof {
                let sub = h@.subrange(i as int, i as int + n@.len() as int);
                assert(sub[k as int] == h@[i + k]);
            }
            return false;
        }
        k = k + 1;
    }
    proof {
        assert(h@.subrange(i as int, i as int + n@.len() as int) =~= n@);
    }
    true
}

/// The position of the first occurrence of `n` in `h`, if any.
pub fn find_sub(h: &Vec<char>, n: &Vec<char>) -> (r: Option<usize>)
    ensures
        match r {
            Some(i) => matches_at(h@, n@, i as int) && (forall|j: int|
                0 <= j < i ==> !matches_at(h@, n@, j)),
            None => !contains_seq(h@, n@),
        },
{
    let hn = h.len();
    let nn = n.len();
    if nn > hn {
        return None;
    }
    let mut i: usize = 0;
    loop
        invariant
            nn <= hn,
            hn == h@.len(),
            nn == n@.len(),
            i <= hn - nn,
            forall|j: int| 0 <= j < i ==> !matches_at(h@, n@, j),
        decreases hn - nn - i,
    {
        if check_match_at(h, n, i) {
            return Some(i);
        }
        if i >= hn - nn {
            proof {
                assert forall|j: int| !matches_at(h@, n@, j) by {
                    if matches_at(h@, n@, j) {
                        assert(0 <= j <= hn - nn);
                    }
                }
            }
            return None;
        }
        i = i + 1;
    }
}

pub fn contains_chars(h: &Vec<char>, n: &Vec<char>) -> (b: bool)
    ensures
        b == contains_seq(h@, n@),
{
    match find_sub(h, n) {
        Some(i) => {
            proof {
                assert(matches_at(h@, n@, i as int));
            }
            true
        },
        None => false,
    }
}

pub fn contains_str(h: &str, n: &str) -> (b: bool)
    ensures
        b == contains_seq(h@, n@),
{
    let hv = str_chars(h);
    let nv = str_chars(n);
    contains_chars(&hv, &nv)
}

/// The position of the first occurrence of the character `c` in `v`.
pub fn find_char(v: &Vec<char>, c: char) -> (r: Option<usize>)
    ensures
        match r {
            Some(i) => i < v@.len() && v@[i as int] == c && (forall|j: int|
                0 <= j < i ==> v@[j] != c),
            None => forall|j: int| 0 <= j < v@.len() ==> v@[j] != c,
        },
{
    let n = v.len();
    let mut i: usize = 0;
    while i < n
        invariant
            i <= n,
            n == v@.len(),
            forall|j: int| 0 <= j < i ==> v@[j] != c,
        decreases n - i,
    {
        if v[i] == c {
            return Some(i);
        }
        i = i + 1;
    }
    None
}

pub fn starts_with_char(s: &str, c: char) -> (b: bool)
    ensures
        b == (s@.len() > 0 && s@[0] == c),
{
    if s.unicode_len() > 0 {
        s.get_char(0) == c
    } else {
        false
    }
}

pub fn has_digit(v: &Vec<char>) -> (b: bool)
    ensures
        b == exists|i: int| 0 <= i < v@.len() && is_digit_char(v@[i]),
{
    let n = v.len();
    let mut i: usize = 0;
    while i < n
        invariant
            i <= n,
            n == v@.len(),
            forall|j: int| 0 <= j < i ==> !is_digit_char(v@[j]),
        decreases n - i,
    {
        if is_digit(v[i]) {
            proof {
                assert(0 <= i < v@.len() && is_digit_char(v@[i as int]));
            }
            return true;
        }
        i = i + 1;
    }
    false
}

// ---------------------------------------------------------------------------
// removing a character
// ---------------------------------------------------------------------------

/// `s` with every occurrence of `c` removed.
pub open spec fn remove_char_spec(s: Seq<char>, c: char) -> Seq<char>
    decreases s.len(),
{
    if s.len() == 0 {
        Seq::empty()
    } else {
        let rest = remove_char_spec(s.drop_last(), c);
        if s.last() == c {
            rest
        } else {
            rest.push(s.last())
        }
    }
}

pub fn remove_char(v: &Vec<char>, c: char) -> (r: Vec<char>)
    ensures
        r@ == remove_char_spec(v@, c),
{
    let n = v.len();
    let mut out: Vec<char> = Vec::new();
    let mut i: usize = 0;
    while i < n
        invariant
            i <= n,
            n == v@.len(),
            out@ == remove_char_spec(v@.subrange(0, i as int), c),
        decreases n - i,
    {
        proof {
            assert(v@.subrange(0, i as int + 1).drop_last() =~= v@.subrange(0, i as int));
            assert(v@.subrange(0, i as int + 1).last() == v@[i as int]);
        }
        if v[i] != c {
            let x = v[i];
            out.push(x);
        }
        i = i + 1;
    }
    proof {
        assert(v@.subrange(0, n as int) =~= v@);
    }
    out
}

// ---------------------------------------------------------------------------
// numeric shape
// ---------------------------------------------------------------------------

pub open spec fn all_digits(s: Seq<char>) -> bool {
    forall|i: int| 0 <= i < s.len() ==> is_digit_char(s[i])
}

/// The sign-free part of a decimal number: digits with at most one
/// '.', and not "" or "." alone.
pub open spec fn decimal_body_ok(b: Seq<char>) -> bool {
    (b.len() > 0 && all_digits(b)) || (b.len() > 1 && exists|k: int|
        0 <= k < b.len() && b[k] == '.' && all_digits(b.subrange(0, k)) && all_digits(
            b.subrange(k + 1, b.len() as int),
        ))
}

/// The shape of a plain non-negative decimal number: an optional
/// leading '+', digits, and at most one '.', with at least one digit
/// or one digit-adjacent '.' present ("12", "+1,234" after comma
/// removal, "0.5", ".5", "1.").
pub open spec fn is_nonneg_decimal(s: Seq<char>) -> bool {
    if s.len() > 0 && s[0] == '+' {
        decimal_body_ok(s.subrange(1, s.len() as int))
    } else {
        decimal_body_ok(s)
    }
}

fn all_digits_range(v: &Vec<char>, from: usize, to: usize) -> (b: bool)
    requires
        from <= to <= v@.len(),
    ensures
        b == all_digits(v@.subrange(from as int, to as int)),
{
    let mut i: usize = from;
    while i < to
        invariant
            from <= i <= to <= v@.len(),
            forall|j: int| from <= j < i ==> is_digit_char(v@[j]),
        decreases to - i,
    {
        if !is_digit(v[i]) {
            proof {
                let sub = v@.subrange(from as int, to as int);
                assert(sub[i - from] == v@[i as int]);
            }
            return false;
        }
        i = i + 1;
    }
    proof {
        let sub = v@.subrange(from as int, to as int);
        assert(forall|j: int| 0 <= j < sub.len() ==> sub[j] == v@[from + j]);
    }
    true
}

fn check_decimal_body(v: &Vec<char>, start: usize) -> (b: bool)
    requires
        start <= v@.len(),
    ensures
        b == decimal_body_ok(v@.subrange(start as int, v@.len() as int)),
{
    let n = v.len();
    let ghost bseq = v@.subrange(start as int, n as int);
    // find the first '.' at or after `start`
    let mut d: usize = start;
    while d < n && v[d] != '.'
        invariant
            start <= d <= n,
            n == v@.len(),
            forall|j: int| start <= j < d ==> v@[j] != '.',
        decreases n - d,
    {
        d = d + 1;
    }
    if d == n {
        // no dot: every character must be a digit and there must be one
        let ok = n - start > 0 && all_digits_range(v, start, n);
        proof {
            if ok {
                assert(bseq.len() > 0 && all_digits(bseq));
            } else {
                // the dot branch of the spec cannot hold: there is no dot
                assert forall|k: int| 0 <= k < bseq.len() implies bseq[k] != '.' by {
                    assert(bseq[k] == v@[start + k]);
                }
            }
        }
        ok
    } else {
        // first dot at absolute position d
        let ok = n - start > 1 && all_digits_range(v, start, d) && all_digits_range(v, d + 1, n);
        proof {
            let kk = d - start;
            assert(bseq[kk as int] == v@[d as int]);
            assert(!is_digit_char(bseq[kk as int]));
            if ok {
                assert(bseq.subrange(0, kk as int) =~= v@.subrange(start as int, d as int));
                assert(bseq.subrange(kk as int + 1, bseq.len() as int) =~= v@.subrange(
                    d as int + 1,
                    n as int,
                ));
                assert(0 <= kk < bseq.len() && bseq[kk as int] == '.' && all_digits(
                    bseq.subrange(0, kk as int),
                ) && all_digits(bseq.subrange(kk as int + 1, bseq.len() as int)));
                assert(decimal_body_ok(bseq));
            } else {
                // a witness for the dot branch would have to be the
                // first dot, whose digit checks were just refuted
                if decimal_body_ok(bseq) {
                    let k = choose|k: int|
                        0 <= k < bseq.len() && bseq[k] == '.' && all_digits(bseq.subrange(0, k))
                            && all_digits(bseq.subrange(k + 1, bseq.len() as int));
                    assert(v@[start + k] == '.');
                    assert(k >= kk);
                    if k > kk {
                        assert(bseq.subrange(0, k)[kk as int] == bseq[kk as int]);
                        assert(false);
                    } else {
                        assert(bseq.subrange(0, kk as int) =~= v@.subrange(
                            start as int,
                            d as int,
                        ));
                        assert(bseq.subrange(kk as int + 1, bseq.len() as int) =~= v@.subrange(
                            d as int + 1,
                            n as int,
                        ));
                        assert(false);
                    }
                }
            }
        }
        ok
    }
}

/// Decides `is_nonneg_decimal` for the characters in `v`.
pub fn check_nonneg_decimal(v: &Vec<char>) -> (b: bool)
    ensures
        b == is_nonneg_decimal(v@),
{
    let n = v.len();
    if n > 0 && v[0] == '+' {
        let r = check_decimal_body(v, 1);
        r
    } else {
        let r = check_decimal_body(v, 0);
        proof {
            assert(v@.subrange(0, n as int) =~= v@);
        }
        r
    }
}

// ---------------------------------------------------------------------------
// cutting at a separator
// ---------------------------------------------------------------------------

/// The prefix of `s` before the first occurrence of `c`, or all of `s`
/// when `c` does not occur.
pub open spec fn cut_at_char_spec(s: Seq<char>, c: char) -> Seq<char>
    decreases s.len(),
{
    if s.len() == 0 {
        s
    } else if s[0] == c {
        Seq::empty()
    } else {
        seq![s[0]] + cut_at_char_spec(s.drop_first(), c)
    }
}

pub proof fn lemma_cut_at_char(s: Seq<char>, c: char, i: int)
    requires
        0 <= i <= s.len(),
        forall|j: int| 0 <= j < i ==> s[j] != c,
        i < s.len() ==> s[i] == c,
    ensures
        cut_at_char_spec(s, c) == s.subrange(0, i),
    decreases i,
{
    if s.len() == 0 {
        assert(s.subrange(0, 0) =~= s);
    } else if i == 0 {
        if s[0] == c {
            assert(s.subrange(0, 0) =~= Seq::<char>::empty());
        } else {
            assert(false);
        }
    } else {
        lemma_cut_at_char(s.drop_first(), c, i - 1);
        assert(s.drop_first().subrange(0, i - 1) =~= s.subrange(1, i));
        assert(seq![s[0]] + s.subrange(1, i) =~= s.subrange(0, i));
    }
}

/// The prefix of `s` before its first occurrence of `c`.
pub fn cut_at_char(s: &str, c: char) -> (r: String)
    ensures
        r@ == cut_at_char_spec(s@, c),
{
    let v = str_chars(s);
    let end = match find_char(&v, c) {
        Some(i) => i,
        None => s.unicode_len(),
    };
    proof {
        lemma_cut_at_char(s@, c, end as int);
    }
    let cut = s.substring_char(0, end);
    cut.to_owned()
}

/// The suffix of `s` after the first occurrence of `c`, or the empty
/// string when `c` does not occur.
pub open spec fn after_char_spec(s: Seq<char>, c: char) -> Seq<char>
    decreases s.len(),
{
    if s.len() == 0 {
        Seq::empty()
    } else if s[0] == c {
        s.drop_first()
    } else {
        after_char_spec(s.drop_first(), c)
    }
}

pub proof fn lemma_after_char(s: Seq<char>, c: char, i: int)
    requires
        0 <= i <= s.len(),
        forall|j: int| 0 <= j < i ==> s[j] != c,
        i < s.len() ==> s[i] == c,
    ensures
        i < s.len() ==> after_char_spec(s, c) == s.subrange(i + 1, s.len() as int),
        i == s.len() ==> after_char_spec(s, c) == Seq::<char>::empty(),
    decreases i,
{
    if s.len() == 0 {
    } else if i == 0 {
        if s[0] == c {
            assert(s.drop_first() =~= s.subrange(1, s.len() as int));
        }
    } else {
        lemma_after_char(s.drop_first(), c, i - 1);
        if i < s.len() {
            assert(s.drop_first().subrange(i, s.len() - 1) =~= s.subrange(
                i + 1,
                s.len() as int,
            ));
        }
    }
}

/// The suffix of `s` after its first occurrence of `c`.
pub fn after_char(s: &str, c: char) -> (r: String)
    ensures
        r@ == after_char_spec(s@, c),
{
    let v = str_chars(s);
    let n = s.unicode_len();
    match find_char(&v, c) {
        Some(i) => {
            proof {
                lemma_after_char(s@, c, i as int);
            }
            let cut = s.substring_char(i + 1, n);
            cut.to_owned()
        },
        None => {
            proof {
                lemma_after_char(s@, c, n as int);
            }
            String::new()
        },
    }
}

/// The position of the first occurrence of `c` in `s`, as a
/// specification value.
pub open spec fn first_index_opt(s: Seq<char>, c: char) -> Option<int>
    decreases s.len(),
{
    if s.len() == 0 {
        None
    } else if s[0] == c {
        Some(0)
    } else {
        match first_index_opt(s.drop_first(), c) {
            Some(i) => Some(i + 1),
            None => None,
        }
    }
}

pub proof fn lemma_first_index(s: Seq<char>, c: char, i: int)
    requires
        0 <= i <= s.len(),
        forall|j: int| 0 <= j < i ==> s[j] != c,
        i < s.len() ==> s[i] == c,
    ensures
        i < s.len() ==> first_index_opt(s, c) == Some(i),
        i == s.len() ==> first_index_opt(s, c) is None,
    decreases i,
{
    if s.len() == 0 {
    } else if i == 0 {
    } else {
        lemma_first_index(s.drop_first(), c, i - 1);
    }
}

/// The prefix of `s` before the first occurrence of the string `sep`,
/// or all of `s` when `sep` does not occur.
pub open spec fn cut_at_sub_spec(s: Seq<char>, sep: Seq<char>) -> Seq<char>
    decreases s.len(),
{
    if s.len() >= sep.len() && s.subrange(0, sep.len() as int) == sep {
        Seq::empty()
    } else if s.len() == 0 {
        s
    } else {
        seq![s[0]] + cut_at_sub_spec(s.drop_first(), sep)
    }
}

proof fn lemma_cut_at_sub_found(s: Seq<char>, sep: Seq<char>, i: int)
    requires
        matches_at(s, sep, i),
        forall|j: int| 0 <= j < i ==> !matches_at(s, sep, j),
    ensures
        cut_at_sub_spec(s, sep) == s.subrange(0, i),
    decreases s.len(),
{
    if i == 0 {
        assert(s.subrange(0, 0) =~= Seq::<char>::empty());
    } else {
        assert(!matches_at(s, sep, 0));
        assert(s.len() > 0);
        let d = s.drop_first();
        assert(d.subrange(i - 1, i - 1 + sep.len() as int) =~= s.subrange(
            i,
            i + sep.len() as int,
        ));
        assert(matches_at(d, sep, i - 1));
        assert forall|j: int| 0 <= j < i - 1 implies !matches_at(d, sep, j) by {
            if matches_at(d, sep, j) {
                assert(d.subrange(j, j + sep.len() as int) =~= s.subrange(
                    j + 1,
                    j + 1 + sep.len() as int,
                ));
                assert(matches_at(s, sep, j + 1));
            }
        }
        lemma_cut_at_sub_found(d, sep, i - 1);
        assert(seq![s[0]] + d.subrange(0, i - 1) =~= s.subrange(0, i));
    }
}

proof fn lemma_cut_at_sub_none(s: Seq<char>, sep: Seq<char>)
    requires
        forall|j: int| !matches_at(s, sep, j),
    ensures
        cut_at_sub_spec(s, sep) == s,
    decreases s.len(),
{
    assert(!matches_at(s, sep, 0));
    if s.len() > 0 {
        let d = s.drop_first();
        assert forall|j: int| !matches_at(d, sep, j) by {
            if matches_at(d, sep, j) {
                assert(d.subrange(j, j + sep.len() as int) =~= s.subrange(
                    j + 1,
                    j + 1 + sep.len() as int,
                ));
                assert(matches_at(s, sep, j + 1));
            }
        }
        lemma_cut_at_sub_none(d, sep);
        assert(seq![s[0]] + d =~= s);
    }
}

/// The prefix of `s` before its first occurrence of `sep`.
pub fn cut_at_sub(s: &str, sep: &str) -> (r: String)
    ensures
        r@ == cut_at_sub_spec(s@, sep@),
{
    let v = str_chars(s);
    let w = str_chars(sep);
    match find_sub(&v, &w) {
        Some(i) => {
            proof {
                lemma_cut_at_sub_found(s@, sep@, i as int);
            }
            let cut = s.substring_char(0, i);
            cut.to_owned()
        },
        None => {
            proof {
                assert forall|j: int| !matches_at(s@, sep@, j) by {
                    if matches_at(s@, sep@, j) {
                        assert(contains_seq(s@, sep@));
                    }
                }
                lemma_cut_at_sub_none(s@, sep@);
            }
            s.to_owned()
        },
    }
}

// ---------------------------------------------------------------------------
// whitespace splitting and joining
// ---------------------------------------------------------------------------

/// The maximal whitespace-free tokens of `s`, in order.
pub open spec fn split_ws_spec(s: Seq<char>) -> Seq<Seq<char>>
    decreases s.len(),
{
    if s.len() == 0 {
        Seq::empty()
    } else {
        let prev = split_ws_spec(s.drop_last());
        let c = s.last();
        if is_space_char(c) {
            prev
        } else if s.len() >= 2 && !is_space_char(s[s.len() - 2]) {
            prev.update(prev.len() - 1, prev.last().push(c))
        } else {
            prev.push(seq![c])
        }
    }
}

/// Splits `s` into its whitespace-separated tokens.
pub fn split_ws(s: &str) -> (r: Vec<String>)
    ensures
        r@.map_values(|t: String| t@) == split_ws_spec(s@),
{
    let n = s.unicode_len();
    let mut out: Vec<String> = Vec::new();
    let mut i: usize = 0;
    let mut tok_start: usize = 0;
    let mut in_tok: bool = false;
    while i < n
        invariant
            i <= n,
            n == s@.len(),
            in_tok ==> tok_start < i && (forall|k: int|
                tok_start <= k < i ==> !is_space_char(s@[k])) && split_ws_spec(
                s@.subrange(0, i as int),
            ) == out@.map_values(|t: String| t@).push(s@.subrange(tok_start as int, i as int)),
            !in_tok ==> (i == 0 || is_space_char(s@[i - 1])) && split_ws_spec(
                s@.subrange(0, i as int),
            ) == out@.map_values(|t: String| t@),
        decreases n - i,
    {
        let c = s.get_char(i);
        proof {
            let pre1 = s@.subrange(0, i as int + 1);
            assert(pre1.drop_last() =~= s@.subrange(0, i as int));
            assert(pre1.last() == s@[i as int]);
            assert(i >= 1 ==> pre1[i - 1] == s@[i - 1]);
        }
        if is_space(c) {
            if in_tok {
                let t = s.substring_char(tok_start, i);
                out.push(t.to_owned());
                proof {
                    let f = |t: String| t@;
                    assert(out@.map_values(f) =~= out@.drop_last().map_values(f).push(
                        s@.subrange(tok_start as int, i as int),
                    ));
                }
                in_tok = false;
            }
        } else {
            if in_tok {
                proof {
                    let f = |t: String| t@;
                    let m = out@.map_values(f);
                    let cur = s@.subrange(tok_start as int, i as int);
                    let cur1 = s@.subrange(tok_start as int, i as int + 1);
                    assert(cur1 =~= cur.push(s@[i as int]));
                    assert(m.push(cur).update(m.push(cur).len() - 1, cur.push(s@[i as int]))
                        =~= m.push(cur1));
                    assert(!is_space_char(s@[i - 1]));
                }
            } else {
                tok_start = i;
                in_tok = true;
                proof {
                    assert(s@.subrange(i as int, i as int + 1) =~= seq![s@[i as int]]);
                }
            }
        }
        i = i + 1;
    }
    if in_tok {
        let t = s.substring_char(tok_start, n);
        out.push(t.to_owned());
        proof {
            let f = |t: String| t@;
            assert(out@.map_values(f) =~= out@.drop_last().map_values(f).push(
                s@.subrange(tok_start as int, n as int),
            ));
        }
    }
    proof {
        assert(s@.subrange(0, n as int) =~= s@);
    }
    out
}

/// The tokens joined with `sep` between consecutive tokens.
pub open spec fn join_spec(ts: Seq<Seq<char>>, sep: Seq<char>) -> Seq<char>
    decreases ts.len(),
{
    if ts.len() == 0 {
        Seq::empty()
    } else if ts.len() == 1 {
        ts[0]
    } else {
        join_spec(ts.drop_last(), sep) + sep + ts.last()
    }
}

/// Joins the strings in `ts`, separated by `sep`.
pub fn join_strings(ts: &Vec<String>, sep: &str) -> (r: String)
    ensures
        r@ == join_spec(ts@.map_values(|t: String| t@), sep@),
{
    let ghost m = ts@.map_values(|t: String| t@);
    let mut r = String::new();
    let mut i: usize = 0;
    while i < ts.len()
        invariant
            i <= ts@.len(),
            m == ts@.map_values(|t: String| t@),
            r@ == join_spec(m.subrange(0, i as int), sep@),
        decreases ts@.len() - i,
    {
        proof {
            assert(m.subrange(0, i as int + 1).drop_last() =~= m.subrange(0, i as int));
            assert(m.subrange(0, i as int + 1).last() == m[i as int]);
            assert(m[i as int] == ts@[i as int]@);
        }
        if i > 0 {
            r.append(sep);
        }
        r.append(ts[i].as_str());
        i = i + 1;
    }
    proof {
        assert(m.subrange(0, m.len() as int) =~= m);
    }
    r
}

/// Whitespace runs collapsed to single spaces, outer whitespace dropped.
pub open spec fn collapse_ws_spec(s: Seq<char>) -> Seq<char> {
    join_spec(split_ws_spec(s), " "@)
}

pub fn collapse_ws(s: &str) -> (r: String)
    ensures
        r@ == collapse_ws_spec(s@),
{
    let toks = split_ws(s);
    join_strings(&toks, " ")
}


/// The position of the first occurrence of `n` in `h`, as a
/// specification value.
pub open spec fn first_sub_index(h: Seq<char>, n: Seq<char>) -> Option<int>
    decreases h.len(),
{
    if matches_at(h, n, 0) {
        Some(0)
    } else if h.len() == 0 {
        None
    } else {
        match first_sub_index(h.drop_first(), n) {
            Some(i) => Some(i + 1),
            None => None,
        }
    }
}

pub proof fn lemma_first_sub_index(h: Seq<char>, n: Seq<char>, i: int)
    requires
        0 <= i <= h.len(),
        forall|j: int| 0 <= j < i ==> !matches_at(h, n, j),
        i < h.len() || i == h.len(),
        (i + n.len() <= h.len() && matches_at(h, n, i)) || (forall|j: int| !matches_at(h, n, j)),
    ensures
        matches_at(h, n, i) ==> first_sub_index(h, n) == Some(i),
        (forall|j: int| !matches_at(h, n, j)) ==> first_sub_index(h, n) is None,
    decreases h.len(),
{
    if matches_at(h, n, 0) {
        assert(i == 0) by {
            if i > 0 {
                assert(!matches_at(h, n, 0));
            }
        }
    } else if h.len() == 0 {
    } else {
        let d = h.drop_first();
        assert forall|j: int| 0 <= j < i - 1 implies !matches_at(d, n, j) by {
            if matches_at(d, n, j) {
                assert(d.subrange(j, j + n.len() as int) =~= h.subrange(
                    j + 1,
                    j + 1 + n.len() as int,
                ));
                assert(matches_at(h, n, j + 1));
            }
        }
        if matches_at(h, n, i) {
            assert(i >= 1);
            assert(d.subrange(i - 1, i - 1 + n.len() as int) =~= h.subrange(
                i,
                i + n.len() as int,
            ));
            assert(matches_at(d, n, i - 1));
            lemma_first_sub_index(d, n, i - 1);
        } else {
            assert forall|j: int| !matches_at(d, n, j) by {
                if matches_at(d, n, j) {
                    assert(d.subrange(j, j + n.len() as int) =~= h.subrange(
                        j + 1,
                        j + 1 + n.len() as int,
                    ));
                    assert(matches_at(h, n, j + 1));
                }
            }
            lemma_first_sub_index(d, n, if i >= 1 {
                i - 1
            } else {
                0
            });
        }
    }
}

/// The characters of `v` from position `s` on.
pub fn vec_suffix(v: &Vec<char>, s: usize) -> (r: Vec<char>)
    requires
        s <= v@.len(),
    ensures
        r@ == v@.skip(s as int),
{
    let n = v.len();
    let mut r: Vec<char> = Vec::new();
    let mut i: usize = s;
    while i < n
        invariant
            s <= i <= n,
            n == v@.len(),
            r@ == v@.subrange(s as int, i as int),
        decreases n - i,
    {
        let c = v[i];
        r.push(c);
        proof {
            assert(v@.subrange(s as int, i as int + 1) =~= v@.subrange(s as int, i as int).push(
                v@[i as int],
            ));
        }
        i = i + 1;
    }
    proof {
        assert(v@.subrange(s as int, n as int) =~= v@.skip(s as int));
    }
    r
}

// ---------------------------------------------------------------------------
// trimmed strings stay trimmed
// ---------------------------------------------------------------------------

/// The string carries no leading or trailing whitespace.
pub open spec fn is_trimmed(s: Seq<char>) -> bool {
    trim_spec(s) == s
}

proof fn lemma_trim_start_head(s: Seq<char>)
    ensures
        trim_start_spec(s).len() > 0 ==> !is_space_char(trim_start_spec(s)[0]),
    decreases s.len(),
{
    if s.len() > 0 && is_space_char(s[0]) {
        lemma_trim_start_head(s.drop_first());
    }
}

proof fn lemma_trim_end_last(s: Seq<char>)
    ensures
        trim_end_spec(s).len() > 0 ==> !is_space_char(trim_end_spec(s).last()),
    decreases s.len(),
{
    if s.len() > 0 && is_space_char(s.last()) {
        lemma_trim_end_last(s.drop_last());
    }
}

proof fn lemma_trim_end_head(s: Seq<char>)
    ensures
        trim_end_spec(s).len() > 0 ==> trim_end_spec(s)[0] == s[0],
    decreases s.len(),
{
    if s.len() > 0 && is_space_char(s.last()) {
        lemma_trim_end_head(s.drop_last());
    }
}

/// Trimming is idempotent: what `trim_spec` returns is itself trimmed.
pub proof fn lemma_trim_trimmed(s: Seq<char>)
    ensures
        is_trimmed(trim_spec(s)),
{
    let m = trim_start_spec(s);
    let t = trim_end_spec(m);
    lemma_trim_start_head(s);
    lemma_trim_end_last(m);
    lemma_trim_end_head(m);
    if t.len() > 0 {
        assert(t[0] == m[0]);
        assert(!is_space_char(t[0]));
        assert(trim_start_spec(t) == t);
        assert(!is_space_char(t.last()));
        assert(trim_end_spec(t) == t);
    } else {
        assert(trim_start_spec(t) == t);
        assert(trim_end_spec(t) == t);
    }
}


/// The suffix of `s` after the first occurrence of `pat`, or the
/// empty string when `pat` does not occur.
pub open spec fn after_sub_spec(s: Seq<char>, pat: Seq<char>) -> Seq<char>
    decreases s.len(),
{
    if s.len() >= pat.len() && s.subrange(0, pat.len() as int) == pat {
        s.skip(pat.len() as int)
    } else if s.len() == 0 {
        Seq::empty()
    } else {
        after_sub_spec(s.drop_first(), pat)
    }
}

proof fn lemma_after_sub_found(s: Seq<char>, pat: Seq<char>, i: int)
    requires
        matches_at(s, pat, i),
        forall|j: int| 0 <= j < i ==> !matches_at(s, pat, j),
    ensures
        after_sub_spec(s, pat) == s.skip(i + pat.len()),
    decreases s.len(),
{
    if i == 0 {
    } else {
        assert(!matches_at(s, pat, 0));
        assert(s.len() > 0);
        let d = s.drop_first();
        assert(d.subrange(i - 1, i - 1 + pat.len() as int) =~= s.subrange(
            i,
            i + pat.len() as int,
        ));
        assert(matches_at(d, pat, i - 1));
        assert forall|j: int| 0 <= j < i - 1 implies !matches_at(d, pat, j) by {
            if matches_at(d, pat, j) {
                assert(d.subrange(j, j + pat.len() as int) =~= s.subrange(
                    j + 1,
                    j + 1 + pat.len() as int,
                ));
                assert(matches_at(s, pat, j + 1));
            }
        }
        lemma_after_sub_found(d, pat, i - 1);
        assert(d.skip(i - 1 + pat.len()) =~= s.skip(i + pat.len()));
    }
}

proof fn lemma_after_sub_none(s: Seq<char>, pat: Seq<char>)
    requires
        forall|j: int| !matches_at(s, pat, j),
    ensures
        after_sub_spec(s, pat) == Seq::<char>::empty(),
    decreases s.len(),
{
    assert(!matches_at(s, pat, 0));
    if s.len() > 0 {
        let d = s.drop_first();
        assert forall|j: int| !matches_at(d, pat, j) by {
            if matches_at(d, pat, j) {
                assert(d.subrange(j, j + pat.len() as int) =~= s.subrange(
                    j + 1,
                    j + 1 + pat.len() as int,
                ));
                assert(matches_at(s, pat, j + 1));
            }
        }
        lemma_after_sub_none(d, pat);
    }
}

/// The suffix of `s` after its first occurrence of `pat`.
pub fn after_sub(s: &str, pat: &str) -> (r: String)
    ensures
        r@ == after_sub_spec(s@, pat@),
{
    let v = str_chars(s);
    let w = str_chars(pat);
    match find_sub(&v, &w) {
        Some(i) => {
            proof {
                lemma_after_sub_found(s@, pat@, i as int);
            }
            let n = s.unicode_len();
            let cut = s.substring_char(i + pat.unicode_len(), n);
            proof {
                assert(cut@ =~= s@.skip(i + pat@.len()));
            }
            cut.to_owned()
        },
        None => {
            proof {
                assert forall|j: int| !matches_at(s@, pat@, j) by {
                    if matches_at(s@, pat@, j) {
                        assert(contains_seq(s@, pat@));
                    }
                }
                lemma_after_sub_none(s@, pat@);
            }
            String::new()
        },
    }
}

/// `s` with every occurrence of `pat` removed, scanning left to
/// right.
pub open spec fn remove_sub_spec(s: Seq<char>, pat: Seq<char>) -> Seq<char>
    decreases s.len(),
{
    if pat.len() == 0 {
        s
    } else if s.len() >= pat.len() && s.subrange(0, pat.len() as int) == pat {
        remove_sub_spec(s.skip(pat.len() as int), pat)
    } else if s.len() == 0 {
        s
    } else {
        seq![s[0]] + remove_sub_spec(s.drop_first(), pat)
    }
}

/// Removes every occurrence of `pat` from `s`.
pub fn remove_sub(s: &str, pat: &str) -> (r: String)
    ensures
        r@ == remove_sub_spec(s@, pat@),
{
    let plen = pat.unicode_len();
    if plen == 0 {
        return s.to_owned();
    }
    let v = str_chars(s);
    let w = str_chars(pat);
    let n = v.len();
    let mut out = String::new();
    let mut start: usize = 0;
    let mut i: usize = 0;
    proof {
        assert(s@.skip(0) =~= s@);
        assert(out@ + s@.subrange(0, 0) + remove_sub_spec(s@, pat@) =~= remove_sub_spec(
            s@,
            pat@,
        ));
    }
    while i < n
        invariant
            start <= i <= n,
            n == s@.len(),
            v@ == s@,
            w@ == pat@,
            plen == pat@.len(),
            plen > 0,
            remove_sub_spec(s@, pat@) == out@ + s@.subrange(start as int, i as int)
                + remove_sub_spec(s@.skip(i as int), pat@),
        decreases n - i,
    {
        let hit = if plen <= n - i {
            crate::text::check_match_at(&v, &w, i)
        } else {
            false
        };
        if hit {
            let run = s.substring_char(start, i);
            out.append(run);
            proof {
                assert(s@.skip(i as int).subrange(0, plen as int) =~= s@.subrange(
                    i as int,
                    i + plen,
                ));
                assert(s@.skip(i as int).skip(plen as int) =~= s@.skip(i + plen));
                assert(remove_sub_spec(s@.skip(i as int), pat@) == remove_sub_spec(
                    s@.skip(i + plen),
                    pat@,
                ));
                assert(s@.subrange(i + plen, i + plen) =~= Seq::<char>::empty());
                assert(out@ + s@.subrange(i + plen, i + plen) =~= out@);
            }
            i = i + plen;
            start = i;
        } else {
            proof {
                let t = s@.skip(i as int);
                if t.len() >= pat@.len() && t.subrange(0, pat@.len() as int) == pat@ {
                    assert(t.subrange(0, plen as int) =~= s@.subrange(i as int, i + plen));
                    assert(matches_at(s@, pat@, i as int));
                    assert(i + plen <= n);
                }
                assert(t.len() > 0);
                assert(seq![t[0]] + remove_sub_spec(t.drop_first(), pat@) == remove_sub_spec(
                    t,
                    pat@,
                ));
                assert(t.drop_first() =~= s@.skip(i as int + 1));
                assert(s@.subrange(start as int, i as int + 1) =~= s@.subrange(
                    start as int,
                    i as int,
                ) + seq![s@[i as int]]);
                assert(t[0] == s@[i as int]);
            }
            i = i + 1;
        }
    }
    let run = s.substring_char(start, n);
    out.append(run);
    proof {
        assert(s@.skip(n as int).len() == 0);
        assert(remove_sub_spec(s@.skip(n as int), pat@) == s@.skip(n as int));
        assert(s@.skip(n as int) =~= Seq::<char>::empty());
        assert(out@ =~= remove_sub_spec(s@, pat@));
    }
    out
}


proof fn lemma_trim_start_suffix(s: Seq<char>)
    ensures
        exists|i: int|
            0 <= i <= s.len() && trim_start_spec(s) == s.subrange(i, s.len() as int),
    decreases s.len(),
{
    if s.len() > 0 && is_space_char(s[0]) {
        let d = s.drop_first();
        lemma_trim_start_suffix(d);
        let i = choose|i: int|
            0 <= i <= d.len() && trim_start_spec(d) == d.subrange(i, d.len() as int);
        assert(d.subrange(i, d.len() as int) =~= s.subrange(i + 1, s.len() as int));
        assert(trim_start_spec(s) == s.subrange(i + 1, s.len() as int));
    } else {
        assert(s.subrange(0, s.len() as int) =~= s);
        assert(trim_start_spec(s) == s.subrange(0, s.len() as int));
    }
}

proof fn lemma_trim_end_prefix(s: Seq<char>)
    ensures
        exists|j: int| 0 <= j <= s.len() && trim_end_spec(s) == s.subrange(0, j),
    decreases s.len(),
{
    if s.len() > 0 && is_space_char(s.last()) {
        let d = s.drop_last();
        lemma_trim_end_prefix(d);
        let j = choose|j: int| 0 <= j <= d.len() && trim_end_spec(d) == d.subrange(0, j);
        assert(d.subrange(0, j) =~= s.subrange(0, j));
        assert(trim_end_spec(s) == s.subrange(0, j));
    } else {
        assert(s.subrange(0, s.len() as int) =~= s);
        assert(trim_end_spec(s) == s.subrange(0, s.len() as int));
    }
}

/// The trimmed string occurs inside the original: trimming only
/// removes an outer margin.
pub proof fn lemma_trim_substring(s: Seq<char>)
    ensures
        contains_seq(s, trim_spec(s)),
{
    let m = trim_start_spec(s);
    lemma_trim_start_suffix(s);
    let i = choose|i: int| 0 <= i <= s.len() && m == s.subrange(i, s.len() as int);
    lemma_trim_end_prefix(m);
    let j = choose|j: int| 0 <= j <= m.len() && trim_end_spec(m) == m.subrange(0, j);
    assert(m.subrange(0, j) =~= s.subrange(i, i + j));
    assert(trim_spec(s) == s.subrange(i, i + j));
    assert(matches_at(s, trim_spec(s), i));
}

proof fn lemma_trim_start_keeps(s: Seq<char>, k: int)
    requires
        0 <= k < s.len(),
        !is_space_char(s[k]),
    ensures
        trim_start_spec(s).len() > 0,
    decreases s.len(),
{
    if s.len() > 0 && is_space_char(s[0]) {
        lemma_trim_start_keeps(s.drop_first(), k - 1);
    }
}

proof fn lemma_trim_end_keeps_head(s: Seq<char>)
    requires
        s.len() > 0,
        !is_space_char(s[0]),
    ensures
        trim_end_spec(s).len() > 0,
    decreases s.len(),
{
    if is_space_char(s.last()) {
        assert(s.len() >= 2);
        lemma_trim_end_keeps_head(s.drop_last());
    }
}

/// A string with any non-whitespace character trims to something
/// non-empty.
pub proof fn lemma_trim_nonempty(s: Seq<char>, k: int)
    requires
        0 <= k < s.len(),
        !is_space_char(s[k]),
    ensures
        trim_spec(s).len() > 0,
{
    lemma_trim_start_keeps(s, k);
    let m = trim_start_spec(s);
    lemma_trim_start_head(s);
    lemma_trim_end_keeps_head(m);
}

/// The trimmed string's first character is not whitespace.
pub proof fn lemma_trim_head_char(s: Seq<char>)
    ensures
        trim_spec(s).len() > 0 ==> !is_space_char(trim_spec(s)[0]),
{
    let m = trim_start_spec(s);
    lemma_trim_start_head(s);
    lemma_trim_end_head(m);
}

/// The prefix cut at a character is a prefix of the string.
pub proof fn lemma_cut_prefix(s: Seq<char>, c: char)
    ensures
        exists|m: int| 0 <= m <= s.len() && cut_at_char_spec(s, c) == s.subrange(0, m),
    decreases s.len(),
{
    if s.len() == 0 {
        assert(s.subrange(0, 0) =~= s);
        assert(cut_at_char_spec(s, c) == s.subrange(0, 0));
    } else if s[0] == c {
        assert(s.subrange(0, 0) =~= Seq::<char>::empty());
        assert(cut_at_char_spec(s, c) == s.subrange(0, 0));
    } else {
        let d = s.drop_first();
        lemma_cut_prefix(d, c);
        let m = choose|m: int| 0 <= m <= d.len() && cut_at_char_spec(d, c) == d.subrange(0, m);
        assert(seq![s[0]] + d.subrange(0, m) =~= s.subrange(0, m + 1));
        assert(cut_at_char_spec(s, c) == s.subrange(0, m + 1));
    }
}

} // verus!
