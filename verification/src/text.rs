//! Character-level scanning primitives shared by the usage-grammar,
//! documentation and tokenizer modules: whitespace skipping, character
//! search, trimming, and their executable counterparts.
use vstd::prelude::*;

verus! {

/// The whitespace characters the grammars of this crate recognise.
pub open spec fn is_ws_char(c: char) -> bool {
    c == ' ' || c == '\t' || c == '\n' || c == '\r'
}

/// First index `>= i` holding a non-whitespace character, or `s.len()`.
pub open spec fn skip_ws(s: Seq<char>, i: int) -> int
    decreases s.len() - i,
{
    if 0 <= i && i < s.len() && is_ws_char(s[i]) {
        skip_ws(s, i + 1)
    } else {
        i
    }
}

pub proof fn lemma_skip_ws_bounds(s: Seq<char>, i: int)
    requires
        0 <= i <= s.len(),
    ensures
        i <= skip_ws(s, i) <= s.len(),
        skip_ws(s, i) < s.len() ==> !is_ws_char(s[skip_ws(s, i)]),
        forall|k: int| i <= k < skip_ws(s, i) ==> is_ws_char(s[k]),
    decreases s.len() - i,
{
    if i < s.len() && is_ws_char(s[i]) {
        lemma_skip_ws_bounds(s, i + 1);
    }
}

/// First index `>= i` holding a whitespace character, or `s.len()`.
pub open spec fn scan_nonws(s: Seq<char>, i: int) -> int
    decreases s.len() - i,
{
    if 0 <= i && i < s.len() && !is_ws_char(s[i]) {
        scan_nonws(s, i + 1)
    } else {
        i
    }
}

pub proof fn lemma_scan_nonws_bounds(s: Seq<char>, i: int)
    requires
        0 <= i <= s.len(),
    ensures
        i <= scan_nonws(s, i) <= s.len(),
    decreases s.len() - i,
{
    if i < s.len() && !is_ws_char(s[i]) {
        lemma_scan_nonws_bounds(s, i + 1);
    }
}

/// First index `>= i` where `c` occurs, or `s.len()` when it does not.
pub open spec fn find_from(s: Seq<char>, i: int, c: char) -> int
    decreases s.len() - i,
{
    if 0 <= i && i < s.len() {
        if s[i] == c {
            i
        } else {
            find_from(s, i + 1, c)
        }
    } else if i >= s.len() {
        s.len() as int
    } else {
        i
    }
}

pub proof fn lemma_find_from_bounds(s: Seq<char>, i: int, c: char)
    requires
        0 <= i <= s.len(),
    ensures
        i <= find_from(s, i, c) <= s.len(),
        find_from(s, i, c) < s.len() ==> s[find_from(s, i, c)] == c,
    decreases s.len() - i,
{
    if i < s.len() && s[i] != c {
        lemma_find_from_bounds(s, i + 1, c);
    }
}

/// Index just past the last non-whitespace character in `s[..i]`,
/// never below `lo`.
pub open spec fn rskip_ws(s: Seq<char>, lo: int, i: int) -> int
    decreases i,
{
    if lo < i && i <= s.len() && 0 <= lo && is_ws_char(s[i - 1]) {
        rskip_ws(s, lo, i - 1)
    } else {
        i
    }
}

pub proof fn lemma_rskip_ws_bounds(s: Seq<char>, lo: int, i: int)
    requires
        0 <= lo <= i <= s.len(),
    ensures
        lo <= rskip_ws(s, lo, i) <= i,
    decreases i,
{
    if lo < i && is_ws_char(s[i - 1]) {
        lemma_rskip_ws_bounds(s, lo, i - 1);
    }
}

/// `s` with leading and trailing whitespace removed.
pub open spec fn trim_of(s: Seq<char>) -> Seq<char> {
    let a = skip_ws(s, 0);
    let b = rskip_ws(s, a, s.len() as int);
    s.subrange(a, b)
}

/// Whether every character of `s` is whitespace.
pub open spec fn all_ws(s: Seq<char>) -> bool {
    forall|k: int| 0 <= k < s.len() ==> is_ws_char(s[k])
}

/// Executable test for [`is_ws_char`].
pub fn is_ws_exec(c: char) -> (r: bool)
    ensures
        r == is_ws_char(c),
{
    c == ' ' || c == '\t' || c == '\n' || c == '\r'
}

/// Whether the character at position `j` of `s` is whitespace.
pub fn ws_at(s: &str, j: usize) -> (r: bool)
    requires
        j < s@.len(),
    ensures
        r == is_ws_char(s@[j as int]),
{
    is_ws_exec(s.get_char(j))
}

pub fn skip_ws_exec(s: &str, i: usize) -> (r: usize)
    requires
        i <= s@.len(),
    ensures
        r == skip_ws(s@, i as int),
        i <= r <= s@.len(),
{
    let n = s.unicode_len();
    let mut j = i;
    while j < n && ws_at(s, j)
        invariant
            i <= j <= n,
            n == s@.len(),
            skip_ws(s@, i as int) == skip_ws(s@, j as int),
        decreases n - j,
    {
        j = j + 1;
    }
    proof {
        lemma_skip_ws_bounds(s@, j as int);
    }
    j
}

pub fn scan_nonws_exec(s: &str, i: usize) -> (r: usize)
    requires
        i <= s@.len(),
    ensures
        r == scan_nonws(s@, i as int),
        i <= r <= s@.len(),
{
    let n = s.unicode_len();
    let mut j = i;
    while j < n && !ws_at(s, j)
        invariant
            i <= j <= n,
            n == s@.len(),
            scan_nonws(s@, i as int) == scan_nonws(s@, j as int),
        decreases n - j,
    {
        j = j + 1;
    }
    proof {
        lemma_scan_nonws_bounds(s@, j as int);
    }
    j
}

pub fn find_from_exec(s: &str, i: usize, c: char) -> (r: usize)
    requires
        i <= s@.len(),
    ensures
        r == find_from(s@, i as int, c),
        i <= r <= s@.len(),
{
    let n = s.unicode_len();
    let mut j = i;
    while j < n && s.get_char(j) != c
        invariant
            i <= j <= n,
            n == s@.len(),
            find_from(s@, i as int, c) == find_from(s@, j as int, c),
        decreases n - j,
    {
        j = j + 1;
    }
    proof {
        lemma_find_from_bounds(s@, j as int, c);
    }
    j
}

pub fn rskip_ws_exec(s: &str, lo: usize, i: usize) -> (r: usize)
    requires
        lo <= i <= s@.len(),
    ensures
        r == rskip_ws(s@, lo as int, i as int),
        lo <= r <= i,
{
    let mut j = i;
    while j > lo && ws_at(s, j - 1)
        invariant
            lo <= j <= i <= s@.len(),
            rskip_ws(s@, lo as int, i as int) == rskip_ws(s@, lo as int, j as int),
        decreases j,
    {
        j = j - 1;
    }
    proof {
        lemma_rskip_ws_bounds(s@, lo as int, j as int);
    }
    j
}

/// Whitespace other than a newline: space, tab, carriage return.
pub open spec fn is_sp_char(c: char) -> bool {
    c == ' ' || c == '\t' || c == '\r'
}

/// First index `>= i` whose character is not a space, tab or carriage
/// return, or `s.len()`.
pub open spec fn skip_sp(s: Seq<char>, i: int) -> int
    decreases s.len() - i,
{
    if 0 <= i && i < s.len() && is_sp_char(s[i]) {
        skip_sp(s, i + 1)
    } else {
        i
    }
}

pub proof fn lemma_skip_sp_bounds(s: Seq<char>, i: int)
    requires
        0 <= i <= s.len(),
    ensures
        i <= skip_sp(s, i) <= s.len(),
    decreases s.len() - i,
{
    if i < s.len() && is_sp_char(s[i]) {
        lemma_skip_sp_bounds(s, i + 1);
    }
}

pub fn skip_sp_exec(s: &str, i: usize) -> (r: usize)
    requires
        i <= s@.len(),
    ensures
        r == skip_sp(s@, i as int),
        i <= r <= s@.len(),
{
    let n = s.unicode_len();
    let mut j = i;
    while j < n && sp_at(s, j)
        invariant
            i <= j <= n,
            n == s@.len(),
            skip_sp(s@, i as int) == skip_sp(s@, j as int),
        decreases n - j,
    {
        j = j + 1;
    }
    proof {
        lemma_skip_sp_bounds(s@, j as int);
    }
    j
}

/// Whether the character at position `j` of `s` is a space, tab or
/// carriage return.
pub fn sp_at(s: &str, j: usize) -> (r: bool)
    requires
        j < s@.len(),
    ensures
        r == is_sp_char(s@[j as int]),
{
    let c = s.get_char(j);
    c == ' ' || c == '\t' || c == '\r'
}

/// The Unicode scalar of `c`, with an ASCII capital letter folded to
/// its small form.
pub open spec fn lower_code(c: char) -> u32 {
    if 65 <= c as u32 && c as u32 <= 90 {
        (c as u32 + 32) as u32
    } else {
        c as u32
    }
}

/// ASCII-case-insensitive equality of two character sequences.
pub open spec fn ci_eq(a: Seq<char>, b: Seq<char>) -> bool {
    a.len() == b.len() && forall|k: int| 0 <= k < a.len() ==> lower_code(a[k]) == lower_code(b[k])
}

/// Executable ASCII-case-insensitive string comparison.
pub fn eq_ci(a: &str, b: &str) -> (r: bool)
    ensures
        r == ci_eq(a@, b@),
{
    let na = a.unicode_len();
    let nb = b.unicode_len();
    if na != nb {
        return false;
    }
    let mut k: usize = 0;
    while k < na
        invariant
            k <= na,
            na == a@.len(),
            na == b@.len(),
            forall|t: int| 0 <= t < k ==> lower_code(a@[t]) == lower_code(b@[t]),
        decreases na - k,
    {
        let ca = a.get_char(k) as u32;
        let cb = b.get_char(k) as u32;
        let la = if 65 <= ca && ca <= 90 {
            ca + 32
        } else {
            ca
        };
        let lb = if 65 <= cb && cb <= 90 {
            cb + 32
        } else {
            cb
        };
        if la != lb {
            return false;
        }
        k = k + 1;
    }
    true
}

/// Slice of `s` with surrounding whitespace removed.
pub fn trim_exec<'a>(s: &'a str) -> (r: &'a str)
    ensures
        r@ == trim_of(s@),
{
    let n = s.unicode_len();
    let a = skip_ws_exec(s, 0);
    let b = rskip_ws_exec(s, a, n);
    s.substring_char(a, b)
}

} // verus!
