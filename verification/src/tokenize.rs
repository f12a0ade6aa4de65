//! Simple tokenization of a raw command string: whitespace-separated
//! words, with single-quoted tokens taken verbatim and double-quoted
//! tokens supporting backslash escapes.
use vstd::prelude::*;

use crate::text::{
    find_from, find_from_exec, scan_nonws, scan_nonws_exec, skip_ws, skip_ws_exec, ws_at,
};

verus! {

/// The position of the closing double quote scanning from `k`, where
/// a backslash escapes the following character; `s.len()` when the
/// quote never closes.
pub open spec fn dq_end(s: Seq<char>, k: int) -> int
    decreases s.len() - k,
{
    if 0 <= k && k < s.len() {
        if s[k] == '"' {
            k
        } else if s[k] == '\\' && k + 1 < s.len() {
            dq_end(s, k + 2)
        } else if s[k] == '\\' {
            s.len() as int
        } else {
            dq_end(s, k + 1)
        }
    } else {
        s.len() as int
    }
}


/// A double-quoted token's content with each backslash removed and
/// the escaped character kept.
pub open spec fn unescape(s: Seq<char>, i: int) -> Seq<char>
    decreases s.len() - i,
{
    if 0 <= i && i < s.len() {
        if s[i] == '\\' && i + 1 < s.len() {
            seq![s[i + 1]] + unescape(s, i + 2)
        } else {
            seq![s[i]] + unescape(s, i + 1)
        }
    } else {
        Seq::empty()
    }
}

/// The tokens of `s` from position `i` on: whitespace-separated
/// words, single-quoted spans verbatim, double-quoted spans with
/// backslash escapes; an unclosed quote character is skipped.
pub open spec fn tokens_from(s: Seq<char>, i: int) -> Seq<Seq<char>>
    decreases s.len() - i, 1int,
{
    let j = skip_ws(s, i);
    if i <= j && j < s.len() {
        if s[j] == '\'' {
            let k = find_from(s, j + 1, '\'');
            if j < k && k < s.len() {
                seq![s.subrange(j + 1, k)] + tokens_from(s, k + 1)
            } else {
                tokens_from_at(s, j + 1)
            }
        } else if s[j] == '"' {
            let k = dq_end(s, j + 1);
            if j < k && k < s.len() {
                seq![unescape(s.subrange(j + 1, k), 0)] + tokens_from(s, k + 1)
            } else {
                tokens_from_at(s, j + 1)
            }
        } else {
            let k = scan_nonws(s, j);
            if j < k && k <= s.len() {
                seq![s.subrange(j, k)] + tokens_from(s, k)
            } else {
                Seq::empty()
            }
        }
    } else {
        Seq::empty()
    }
}

/// Helper for the skip-one-character fallback, so both functions
/// decrease on the position.
pub open spec fn tokens_from_at(s: Seq<char>, i: int) -> Seq<Seq<char>>
    decreases s.len() - i, 2int,
{
    tokens_from(s, i)
}

/// Tokenize a raw command string: split on whitespace, with minimal
/// support for single- and double-quoting.
#[verifier::loop_isolation(false)]
#[verifier::rlimit(60)]
pub fn tokenize_str_simple(s: &str) -> (r: Vec<String>)
    ensures
        r.deep_view() == tokens_from(s@, 0),
{
    let n = s.unicode_len();
    let mut out: Vec<String> = Vec::new();
    let mut pos: usize = 0;
    let mut done = false;
    while !done
        invariant
            pos <= n,
            n == s@.len(),
            !done ==> tokens_from(s@, 0) == out.deep_view() + tokens_from(s@, pos as int),
            done ==> tokens_from(s@, 0) == out.deep_view(),
        decreases 2 * (n - pos) + (if done {
            0int
        } else {
            1int
        }),
    {
        let j = skip_ws_exec(s, pos);
        if j >= n {
            proof {
                assert(tokens_from(s@, pos as int) =~= Seq::<Seq<char>>::empty());
                assert(out.deep_view() + tokens_from(s@, pos as int) =~= out.deep_view());
            }
            done = true;
            continue ;
        }
        let ghost prev = out.deep_view();
        let c = s.get_char(j);
        if c == '\'' {
            let k = find_from_exec(s, j + 1, '\'');
            if k < n {
                out.push(String::from_str(s.substring_char(j + 1, k)));
                proof {
                    assert(out.deep_view() =~= prev.push(s@.subrange(j + 1, k as int)));
                    assert(tokens_from(s@, pos as int) == seq![s@.subrange(j + 1, k as int)]
                        + tokens_from(s@, k + 1));
                    assert(out.deep_view() + tokens_from(s@, k + 1) =~= prev + tokens_from(
                        s@,
                        pos as int,
                    ));
                }
                pos = k + 1;
            } else {
                proof {
                    assert(tokens_from_at(s@, j + 1) == tokens_from(s@, j + 1));
                    assert(tokens_from(s@, pos as int) == tokens_from(s@, j + 1));
                }
                pos = j + 1;
            }
        } else if c == '"' {
            let mut k = j + 1;
            let mut closed = false;
            while !closed && k < n
                invariant
                    j + 1 <= k <= n,
                    !closed ==> dq_end(s@, j + 1) == dq_end(s@, k as int),
                    closed ==> dq_end(s@, j + 1) == k && k < n,
                decreases n - k + (if closed {
                    0int
                } else {
                    1int
                }),
            {
                let ck = s.get_char(k);
                if ck == '"' {
                    closed = true;
                } else if ck == '\\' && k + 1 < n {
                    k = k + 2;
                } else if ck == '\\' {
                    proof {
                        assert(dq_end(s@, k as int) == s@.len());
                    }
                    k = n;
                } else {
                    k = k + 1;
                }
            }
            proof {
                if !closed {
                    assert(dq_end(s@, n as int) == n);
                }
            }
            if closed {
                // Undo the backslash escapes inside the quotes.
                let mut piece = String::new();
                let mut q = j + 1;
                let ghost content = s@.subrange(j + 1, k as int);
                proof {
                    lemma_unescape_window(s@, j + 1, k as int, 0);
                }
                while q < k
                    invariant
                        j + 1 <= q <= k <= n,
                        n == s@.len(),
                        piece@ + unescape_window(s@, q as int, k as int) == unescape_window(
                            s@,
                            j + 1,
                            k as int,
                        ),
                    decreases k - q,
                {
                    let ghost pv = piece@;
                    let cq = s.get_char(q);
                    if cq == '\\' && q + 1 < k {
                        piece.append(s.substring_char(q + 1, q + 2));
                        proof {
                            assert(s@.subrange(q + 1, q + 2) =~= seq![s@[q + 1]]);
                            assert(unescape_window(s@, q as int, k as int) == seq![s@[q + 1]]
                                + unescape_window(s@, q + 2, k as int));
                            assert(piece@ + unescape_window(s@, q + 2, k as int) =~= pv
                                + unescape_window(s@, q as int, k as int));
                        }
                        q = q + 2;
                    } else {
                        piece.append(s.substring_char(q, q + 1));
                        proof {
                            assert(s@.subrange(q as int, q + 1) =~= seq![s@[q as int]]);
                            assert(unescape_window(s@, q as int, k as int) == seq![s@[q as int]]
                                + unescape_window(s@, q + 1, k as int));
                            assert(piece@ + unescape_window(s@, q + 1, k as int) =~= pv
                                + unescape_window(s@, q as int, k as int));
                        }
                        q = q + 1;
                    }
                }
                proof {
                    assert(unescape_window(s@, k as int, k as int) =~= Seq::<char>::empty());
                    assert(piece@ =~= unescape_window(s@, j + 1, k as int));
                }
                out.push(piece);
                proof {
                    assert(out.deep_view() =~= prev.push(unescape(s@.subrange(j + 1, k as int), 0)));
                    assert(tokens_from(s@, pos as int) == seq![
                        unescape(s@.subrange(j + 1, k as int), 0),
                    ] + tokens_from(s@, k + 1));
                    assert(out.deep_view() + tokens_from(s@, k + 1) =~= prev + tokens_from(
                        s@,
                        pos as int,
                    ));
                }
                pos = k + 1;
            } else {
                proof {
                    assert(tokens_from_at(s@, j + 1) == tokens_from(s@, j + 1));
                    assert(tokens_from(s@, pos as int) == tokens_from(s@, j + 1));
                }
                pos = j + 1;
            }
        } else {
            let k = scan_nonws_exec(s, j);
            proof {
                crate::text::lemma_skip_ws_bounds(s@, pos as int);
                crate::text::lemma_scan_nonws_bounds(s@, j + 1);
            }
            assert(k > j);
            out.push(String::from_str(s.substring_char(j, k)));
            proof {
                assert(out.deep_view() =~= prev.push(s@.subrange(j as int, k as int)));
                assert(tokens_from(s@, pos as int) == seq![s@.subrange(j as int, k as int)]
                    + tokens_from(s@, k as int));
                assert(out.deep_view() + tokens_from(s@, k as int) =~= prev + tokens_from(
                    s@,
                    pos as int,
                ));
            }
            pos = k;
        }
    }
    out
}

/// The unescaped content of the window `[i, k)` of `s`: the same
/// rewriting as [`unescape`], expressed over the whole string so the
/// scanning loop can step through it.
pub open spec fn unescape_window(s: Seq<char>, i: int, k: int) -> Seq<char>
    decreases k - i,
{
    if 0 <= i && i < k && k <= s.len() {
        if s[i] == '\\' && i + 1 < k {
            seq![s[i + 1]] + unescape_window(s, i + 2, k)
        } else {
            seq![s[i]] + unescape_window(s, i + 1, k)
        }
    } else {
        Seq::empty()
    }
}

/// The window form of [`unescape`] agrees with it on the subrange.
pub proof fn lemma_unescape_window(s: Seq<char>, i: int, k: int, d: int)
    requires
        0 <= i,
        i + d <= k <= s.len(),
        0 <= d,
    ensures
        unescape_window(s, i + d, k) == unescape(s.subrange(i, k), d),
    decreases k - i - d,
{
    let c = s.subrange(i, k);
    if i + d < k {
        assert(c[d] == s[i + d]);
        if s[i + d] == '\\' && i + d + 1 < k {
            assert(c[d + 1] == s[i + d + 1]);
            lemma_unescape_window(s, i, k, d + 2);
        } else {
            lemma_unescape_window(s, i, k, d + 1);
        }
    }
}

} // verus!
