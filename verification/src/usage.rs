//! The usage-grammar parser.  One usage paragraph of the form
//! `` `<usage-tokens>`[:] <short-description> `` is parsed into a
//! [`CommandUsage`]: an identifier clause (a bare token or a
//! pipe-separated alias list in parentheses), required `<name>` tokens,
//! optional `[name]` tokens, and at most one trailing rest token
//! `<name...>` or `[name...]`.
use vstd::prelude::*;

use crate::errors::SpecError;
use crate::text::{
    find_from, find_from_exec, is_ws_char, skip_ws, skip_ws_exec, scan_nonws, scan_nonws_exec,
    trim_exec, trim_of,
};

verus! {

/// The rest argument declared by a usage line, if any.
#[derive(Debug, Clone, PartialEq, Eq)]
pub enum RestArg {
    /// No rest argument.
    NoRest,
    /// An optional rest argument, written `[name...]`.
    Optional(String),
    /// A required rest argument, written `<name...>`.
    Required(String),
}

/// The structured model of one usage paragraph.  The first identifier is
/// canonical; the rest are aliases.
#[derive(Debug, Clone, PartialEq, Eq)]
pub struct CommandUsage {
    /// The identifiers of the command (non-empty; first is canonical).
    pub ids: Vec<String>,
    /// Names of the required one-token arguments, in order.
    pub required: Vec<String>,
    /// Names of the optional one-token arguments, in order.
    pub optional: Vec<String>,
    /// The rest argument, if declared.
    pub rest: RestArg,
    /// The short description following the usage tokens.
    pub desc: String,
}

/// Ghost model of a rest declaration.
pub enum RestForm {
    NoRest,
    OptRest(Seq<char>),
    ReqRest(Seq<char>),
}

/// Ghost model of a parsed usage paragraph.
pub struct UsageForm {
    pub ids: Seq<Seq<char>>,
    pub required: Seq<Seq<char>>,
    pub optional: Seq<Seq<char>>,
    pub rest: RestForm,
    pub desc: Seq<char>,
}

/// Ghost outcome of running the usage grammar over a paragraph.
pub enum UsageOutcome {
    /// The paragraph has no backtick-delimited usage span.
    BadParagraph,
    /// The usage tokens do not start with a valid identifier clause.
    BadIdClause,
    /// Unconsumed usage content remained; carries the remainder.
    TrailingContent(Seq<char>),
    /// The paragraph parsed; carries the model.
    Parsed(UsageForm),
}

/// The pipe-separated pieces of an alias list, each trimmed.
pub open spec fn split_pipes_from(s: Seq<char>, i: int) -> Seq<Seq<char>>
    decreases s.len() - i,
{
    let j = find_from(s, i, '|');
    if 0 <= i && i <= j && j < s.len() {
        seq![trim_of(s.subrange(i, j))] + split_pipes_from(s, j + 1)
    } else {
        seq![trim_of(s.subrange(if 0 <= i && i <= s.len() { i } else { 0 }, s.len() as int))]
    }
}

/// A plain (non-rest) argument name: at most two characters, or not
/// ending in a period.  The period rule keeps a name from absorbing
/// sentence-ending punctuation.
pub open spec fn plain_name_ok(name: Seq<char>) -> bool {
    name.len() <= 2 || name[name.len() - 1] != '.'
}

/// A rest token's bracket content: a non-empty name followed by `...`.
pub open spec fn rest_content_ok(content: Seq<char>) -> bool {
    content.len() >= 4 && content[content.len() - 3] == '.' && content[content.len() - 2] == '.'
        && content[content.len() - 1] == '.'
}

/// The identifier clause at the start of the usage tokens: either a
/// bare non-parenthesized token or a parenthesized pipe-separated alias
/// list.  Returns the identifiers and the position after the clause.
pub open spec fn ids_clause(u: Seq<char>, i: int) -> Option<(Seq<Seq<char>>, int)> {
    let j = skip_ws(u, i);
    if i <= j && j < u.len() {
        if u[j] == '(' {
            let k = find_from(u, j + 1, ')');
            if j < k && k < u.len() {
                Some((split_pipes_from(u.subrange(j + 1, k), 0), k + 1))
            } else {
                None
            }
        } else {
            let k = scan_nonws(u, j);
            if j < k && k <= u.len() {
                Some((seq![u.subrange(j, k)], k))
            } else {
                None
            }
        }
    } else {
        None
    }
}

/// The bracketed one-token argument names from position `i` on, for the
/// bracket pair `open`/`close`, and the position after the last one.
pub open spec fn bracket_args(u: Seq<char>, i: int, open: char, close: char) -> (Seq<Seq<char>>,
    int)
    decreases u.len() - i,
{
    let j = skip_ws(u, i);
    if i <= j && j < u.len() && u[j] == open {
        let k = find_from(u, j + 1, close);
        if j < k && k < u.len() {
            let name = u.subrange(j + 1, k);
            if plain_name_ok(name) {
                let (more, end) = bracket_args(u, k + 1, open, close);
                (seq![name] + more, end)
            } else {
                (Seq::empty(), i)
            }
        } else {
            (Seq::empty(), i)
        }
    } else {
        (Seq::empty(), i)
    }
}

/// The trailing rest token, if one stands at position `i`, and the
/// position after it.
pub open spec fn rest_clause(u: Seq<char>, i: int) -> (RestForm, int) {
    let j = skip_ws(u, i);
    if i <= j && j < u.len() && (u[j] == '<' || u[j] == '[') {
        let close = if u[j] == '<' {
            '>'
        } else {
            ']'
        };
        let k = find_from(u, j + 1, close);
        if j < k && k < u.len() {
            let content = u.subrange(j + 1, k);
            if rest_content_ok(content) {
                let name = content.subrange(0, content.len() - 3);
                if u[j] == '<' {
                    (RestForm::ReqRest(name), k + 1)
                } else {
                    (RestForm::OptRest(name), k + 1)
                }
            } else {
                (RestForm::NoRest, i)
            }
        } else {
            (RestForm::NoRest, i)
        }
    } else {
        (RestForm::NoRest, i)
    }
}

/// The usage grammar, run over one whole paragraph.
pub open spec fn usage_outcome(par: Seq<char>) -> UsageOutcome {
    let a = skip_ws(par, 0);
    if 0 <= a && a < par.len() && par[a] == '`' {
        let b = find_from(par, a + 1, '`');
        if a < b && b < par.len() {
            let u = par.subrange(a + 1, b);
            let c0 = skip_ws(par, b + 1);
            let c = if 0 <= c0 && c0 < par.len() && par[c0] == ':' {
                skip_ws(par, c0 + 1)
            } else {
                c0
            };
            let desc = if 0 <= c && c <= par.len() {
                par.subrange(c, par.len() as int)
            } else {
                Seq::empty()
            };
            match ids_clause(u, 0) {
                Option::None => UsageOutcome::BadIdClause,
                Option::Some((ids, p1)) => {
                    let (req, p2) = bracket_args(u, p1, '<', '>');
                    let (opt, p3) = bracket_args(u, p2, '[', ']');
                    let (rest, p4) = rest_clause(u, p3);
                    let p5 = skip_ws(u, p4);
                    if 0 <= p4 && p4 <= u.len() && p5 < u.len() {
                        UsageOutcome::TrailingContent(u.subrange(p4, u.len() as int))
                    } else {
                        UsageOutcome::Parsed(
                            UsageForm { ids, required: req, optional: opt, rest, desc },
                        )
                    }
                },
            }
        } else {
            UsageOutcome::BadParagraph
        }
    } else {
        UsageOutcome::BadParagraph
    }
}

/// The ghost model of a rest declaration carried by `r`.
pub open spec fn rest_form_of(r: &RestArg) -> RestForm {
    match r {
        RestArg::NoRest => RestForm::NoRest,
        RestArg::Optional(n) => RestForm::OptRest(n@),
        RestArg::Required(n) => RestForm::ReqRest(n@),
    }
}

/// The ghost model carried by an executable [`CommandUsage`].
pub open spec fn uform_of(cu: &CommandUsage) -> UsageForm {
    UsageForm {
        ids: cu.ids.deep_view(),
        required: cu.required.deep_view(),
        optional: cu.optional.deep_view(),
        rest: rest_form_of(&cu.rest),
        desc: cu.desc@,
    }
}

/// Whether the executable [`CommandUsage`] carries exactly the ghost
/// model `f`.
pub open spec fn usage_is_form(cu: &CommandUsage, f: UsageForm) -> bool {
    &&& cu.ids.deep_view() == f.ids
    &&& cu.required.deep_view() == f.required
    &&& cu.optional.deep_view() == f.optional
    &&& match cu.rest {
        RestArg::NoRest => f.rest is NoRest,
        RestArg::Optional(ref n) => f.rest matches RestForm::OptRest(m) && n@ == m,
        RestArg::Required(ref n) => f.rest matches RestForm::ReqRest(m) && n@ == m,
    }
    &&& cu.desc@ == f.desc
}

/// What [`parse_usage_desc`] returns for a paragraph, case by case.
pub open spec fn usage_result_matches(par: Seq<char>, r: &Result<CommandUsage, SpecError>) -> bool {
    match usage_outcome(par) {
        UsageOutcome::BadParagraph => r matches Err(SpecError::InvalidUsageParagraph),
        UsageOutcome::BadIdClause => r matches Err(SpecError::InvalidIdSpecifier),
        UsageOutcome::TrailingContent(t) => r matches Err(SpecError::TrailingUsage(s)) && s@ == t,
        UsageOutcome::Parsed(f) => r matches Ok(cu) && usage_is_form(cu, f),
    }
}

fn split_pipes_exec(s: &str) -> (r: Vec<String>)
    ensures
        r.deep_view() == split_pipes_from(s@, 0),
{
    let n = s.unicode_len();
    let mut pos: usize = 0;
    let mut out: Vec<String> = Vec::new();
    let mut done = false;
    while !done
        invariant
            pos <= n,
            n == s@.len(),
            !done ==> split_pipes_from(s@, 0) == out.deep_view() + split_pipes_from(
                s@,
                pos as int,
            ),
            done ==> split_pipes_from(s@, 0) == out.deep_view(),
        decreases 2 * (n - pos) + (if done {
            0int
        } else {
            1int
        }),
    {
        let j = find_from_exec(s, pos, '|');
        let ghost prev = out.deep_view();
        if j == n {
            let piece = trim_exec(s.substring_char(pos, n));
            out.push(String::from_str(piece));
            done = true;
            proof {
                assert(out.deep_view() =~= prev.push(piece@));
                assert(split_pipes_from(s@, pos as int) =~= seq![
                    trim_of(s@.subrange(pos as int, n as int)),
                ]);
                assert(out.deep_view() =~= prev + split_pipes_from(s@, pos as int));
            }
        } else {
            let piece = trim_exec(s.substring_char(pos, j));
            out.push(String::from_str(piece));
            proof {
                assert(out.deep_view() =~= prev.push(piece@));
                assert(split_pipes_from(s@, pos as int) == seq![
                    trim_of(s@.subrange(pos as int, j as int)),
                ] + split_pipes_from(s@, j + 1));
                assert(out.deep_view() + split_pipes_from(s@, j + 1) =~= prev + split_pipes_from(
                    s@,
                    pos as int,
                ));
            }
            pos = j + 1;
        }
    }
    out
}

fn bracket_args_exec(u: &str, start: usize, open: char, close: char) -> (r: (Vec<String>, usize))
    requires
        start <= u@.len(),
    ensures
        (r.0.deep_view(), r.1 as int) == bracket_args(u@, start as int, open, close),
        start <= r.1 <= u@.len(),
{
    let n = u.unicode_len();
    let mut pos = start;
    let mut out: Vec<String> = Vec::new();
    let mut done = false;
    while !done
        invariant
            start <= pos <= n,
            n == u@.len(),
            !done ==> bracket_args(u@, start as int, open, close) == {
                let (more, end) = bracket_args(u@, pos as int, open, close);
                (out.deep_view() + more, end)
            },
            done ==> bracket_args(u@, start as int, open, close) == (
                out.deep_view(),
                pos as int,
            ),
        decreases 2 * (n - pos) + (if done {
            0int
        } else {
            1int
        }),
    {
        let ghost prev = out.deep_view();
        let j = skip_ws_exec(u, pos);
        let mut matched = false;
        if j < n && u.get_char(j) == open {
            let k = find_from_exec(u, j + 1, close);
            if k < n {
                let name = u.substring_char(j + 1, k);
                let len = name.unicode_len();
                let last_ok = if len <= 2 {
                    true
                } else {
                    name.get_char(len - 1) != '.'
                };
                if last_ok {
                    out.push(String::from_str(name));
                    proof {
                        assert(out.deep_view() =~= prev.push(name@));
                        let (more, end) = bracket_args(u@, k + 1, open, close);
                        assert(bracket_args(u@, pos as int, open, close) == (
                            seq![name@] + more,
                            end,
                        ));
                        assert(prev + (seq![name@] + more) =~= out.deep_view() + more);
                    }
                    pos = k + 1;
                    matched = true;
                }
            }
        }
        if !matched {
            done = true;
            proof {
                assert(bracket_args(u@, pos as int, open, close) == (
                    Seq::<Seq<char>>::empty(),
                    pos as int,
                ));
                assert(out.deep_view() + Seq::<Seq<char>>::empty() =~= out.deep_view());
            }
        }
    }
    (out, pos)
}

fn rest_clause_exec(u: &str, start: usize) -> (r: (RestArg, usize))
    requires
        start <= u@.len(),
    ensures
        start <= r.1 <= u@.len(),
        ({
            let (form, end) = rest_clause(u@, start as int);
            &&& r.1 as int == end
            &&& match r.0 {
                RestArg::NoRest => form is NoRest,
                RestArg::Optional(ref m) => form matches RestForm::OptRest(fm) && m@ == fm,
                RestArg::Required(ref m) => form matches RestForm::ReqRest(fm) && m@ == fm,
            }
        }),
{
    let n = u.unicode_len();
    let j = skip_ws_exec(u, start);
    if j < n && (u.get_char(j) == '<' || u.get_char(j) == '[') {
        let is_req = u.get_char(j) == '<';
        let close = if is_req {
            '>'
        } else {
            ']'
        };
        let k = find_from_exec(u, j + 1, close);
        if k < n {
            let content = u.substring_char(j + 1, k);
            let clen = content.unicode_len();
            if clen >= 4 && content.get_char(clen - 3) == '.' && content.get_char(clen - 2) == '.'
                && content.get_char(clen - 1) == '.' {
                let name = String::from_str(content.substring_char(0, clen - 3));
                if is_req {
                    (RestArg::Required(name), k + 1)
                } else {
                    (RestArg::Optional(name), k + 1)
                }
            } else {
                (RestArg::NoRest, start)
            }
        } else {
            (RestArg::NoRest, start)
        }
    } else {
        (RestArg::NoRest, start)
    }
}

/// Parse one usage paragraph into a [`CommandUsage`].
///
/// The paragraph must hold a backtick-delimited usage span, optionally
/// followed by a colon, then the short description.  Inside the span
/// stand, in order: the identifier clause, required `<name>` tokens,
/// optional `[name]` tokens, and at most one rest token; anything left
/// over is a fatal trailing-content error.
pub fn parse_usage_desc(par: &str) -> (r: Result<CommandUsage, SpecError>)
    ensures
        usage_result_matches(par@, &r),
{
    let n = par.unicode_len();
    let a = skip_ws_exec(par, 0);
    if !(a < n && par.get_char(a) == '`') {
        return Err(SpecError::InvalidUsageParagraph);
    }
    let b = find_from_exec(par, a + 1, '`');
    if b >= n {
        return Err(SpecError::InvalidUsageParagraph);
    }
    let u = par.substring_char(a + 1, b);
    let un = u.unicode_len();
    let c0 = skip_ws_exec(par, b + 1);
    let c = if c0 < n && par.get_char(c0) == ':' {
        skip_ws_exec(par, c0 + 1)
    } else {
        c0
    };
    let desc = String::from_str(par.substring_char(c, n));

    // Identifier clause.
    let j = skip_ws_exec(u, 0);
    let (ids, p1): (Vec<String>, usize) = if j < un && u.get_char(j) == '(' {
        let k = find_from_exec(u, j + 1, ')');
        if k >= un {
            return Err(SpecError::InvalidIdSpecifier);
        }
        (split_pipes_exec(u.substring_char(j + 1, k)), k + 1)
    } else if j < un {
        let k = scan_nonws_exec(u, j);
        if k == j {
            return Err(SpecError::InvalidIdSpecifier);
        }
        let mut v: Vec<String> = Vec::new();
        v.push(String::from_str(u.substring_char(j, k)));
        proof {
            assert(v.deep_view() =~= seq![u@.subrange(j as int, k as int)]);
        }
        (v, k)
    } else {
        return Err(SpecError::InvalidIdSpecifier);
    };

    let (required, p2) = bracket_args_exec(u, p1, '<', '>');
    let (optional, p3) = bracket_args_exec(u, p2, '[', ']');
    let (rest, p4) = rest_clause_exec(u, p3);
    let p5 = skip_ws_exec(u, p4);
    if p5 < un {
        return Err(SpecError::TrailingUsage(String::from_str(u.substring_char(p4, un))));
    }

    Ok(CommandUsage { ids, required, optional, rest, desc })
}

/// An alias list always yields at least one identifier.
pub proof fn lemma_split_pipes_nonempty(s: Seq<char>, i: int)
    ensures
        split_pipes_from(s, i).len() >= 1,
    decreases s.len() - i,
{
    let j = find_from(s, i, '|');
    if 0 <= i && i <= j && j < s.len() {
        lemma_split_pipes_nonempty(s, j + 1);
    }
}

/// A parsed usage paragraph always carries at least one identifier.
pub proof fn lemma_outcome_ids_nonempty(par: Seq<char>)
    ensures
        match usage_outcome(par) {
            UsageOutcome::Parsed(f) => f.ids.len() >= 1,
            _ => true,
        },
{
    if usage_outcome(par) is Parsed {
        let a = skip_ws(par, 0);
        let b = find_from(par, a + 1, '`');
        let u = par.subrange(a + 1, b);
        match ids_clause(u, 0) {
            Option::Some((ids, p1)) => {
                let j = skip_ws(u, 0);
                if u[j] == '(' {
                    let k = find_from(u, j + 1, ')');
                    lemma_split_pipes_nonempty(u.subrange(j + 1, k), 0);
                } else {
                }
            },
            Option::None => {},
        }
    }
}

} // verus!
