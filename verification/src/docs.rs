//! The documentation parser.  A command's documentation is a sequence
//! of lines forming paragraphs separated by blank lines: the first
//! paragraph is the usage line, and each further paragraph is a
//! `# <marker>` section (summary, arguments, or examples).
use vstd::prelude::*;

use crate::errors::{SpecError, SpecErrorForm, spec_err_is};
use crate::text::{
    ci_eq, eq_ci, find_from, find_from_exec, is_ws_char, scan_nonws, scan_nonws_exec, skip_sp,
    skip_sp_exec, skip_ws, skip_ws_exec, trim_exec, trim_of, ws_at,
};
use crate::usage::{
    CommandUsage, RestForm, UsageForm, UsageOutcome, parse_usage_desc, uform_of, usage_is_form,
    usage_outcome,
};

verus! {

/// Documentation of one declared argument: its name, whether it is
/// required, and its long description.
#[derive(Debug, Clone, PartialEq, Eq)]
pub struct ArgumentDoc {
    /// The argument's name, as declared in the usage line.
    pub name: String,
    /// Whether the argument is required.
    pub required: bool,
    /// The long description from the arguments section.
    pub desc: String,
}

// ---------------------------------------------------------------------
// Paragraphs
// ---------------------------------------------------------------------

/// First line index `>= i` that is blank (or the end of the lines).
pub open spec fn par_end(lines: Seq<Seq<char>>, i: int) -> int
    decreases lines.len() - i,
{
    if 0 <= i && i < lines.len() && trim_of(lines[i]).len() > 0 {
        par_end(lines, i + 1)
    } else {
        i
    }
}

pub proof fn lemma_par_end_bounds(lines: Seq<Seq<char>>, i: int)
    requires
        0 <= i <= lines.len(),
    ensures
        i <= par_end(lines, i) <= lines.len(),
    decreases lines.len() - i,
{
    if i < lines.len() && trim_of(lines[i]).len() > 0 {
        lemma_par_end_bounds(lines, i + 1);
    }
}

/// The line index at which the paragraph after the one starting at `i`
/// begins: past the blank separator line, when there is one.
pub open spec fn next_par(lines: Seq<Seq<char>>, i: int) -> int {
    let j = par_end(lines, i);
    if j < lines.len() {
        j + 1
    } else {
        lines.len() as int
    }
}

/// The lines `[i, j)` joined into one paragraph: verbatim with a
/// newline after every line when `preserve` is set, else trimmed and
/// joined with single spaces.
pub open spec fn par_join(lines: Seq<Seq<char>>, i: int, j: int, preserve: bool) -> Seq<char>
    decreases j - i,
{
    if 0 <= i && i < j && j <= lines.len() {
        if preserve {
            lines[i] + seq!['\n'] + par_join(lines, i + 1, j, preserve)
        } else {
            if i + 1 < j {
                trim_of(lines[i]) + seq![' '] + par_join(lines, i + 1, j, preserve)
            } else {
                trim_of(lines[i])
            }
        }
    } else {
        Seq::empty()
    }
}

/// Take the paragraph starting at line `start`: its joined content (or
/// `None` when the cursor stands on a blank line or at the end) and the
/// cursor for the next paragraph.
pub fn take_paragraph(lines: &Vec<String>, start: usize, preserve: bool) -> (r: (
    Option<String>,
    usize,
))
    requires
        start <= lines@.len(),
    ensures
        r.1 as int == next_par(lines.deep_view(), start as int),
        start <= r.1 <= lines@.len(),
        ({
            let j = par_end(lines.deep_view(), start as int);
            match r.0 {
                Some(s) => j > start && s@ == par_join(
                    lines.deep_view(),
                    start as int,
                    j,
                    preserve,
                ),
                None => j == start,
            }
        }),
{
    proof {
        lemma_par_end_bounds(lines.deep_view(), start as int);
    }
    let n = lines.len();
    let ghost lv = lines.deep_view();
    let ghost pe = par_end(lv, start as int);
    let mut i = start;
    let mut out = String::new();
    loop
        invariant
            start <= i <= n,
            n == lines@.len(),
            lv == lines.deep_view(),
            pe == par_end(lv, start as int),
            start <= pe <= n,
            par_end(lv, i as int) == pe,
            i <= pe,
            i == start ==> out@.len() == 0,
            preserve ==> out@ + par_join(lv, i as int, pe, true) == par_join(
                lv,
                start as int,
                pe,
                true,
            ),
            !preserve && start < i < pe ==> out@ + seq![' '] + par_join(lv, i as int, pe, false)
                == par_join(lv, start as int, pe, false),
            !preserve && i == pe ==> out@ == par_join(lv, start as int, pe, false),
        ensures
            i == pe,
            out@ == par_join(lv, start as int, pe, preserve),
        decreases n - i,
    {
        if i >= n {
            break ;
        }
        let line: &String = &lines[i];
        let trimmed = trim_exec(line.as_str());
        if trimmed.unicode_len() == 0 {
            assert(par_end(lv, i as int) == i);
            break ;
        }
        assert(trim_of(lv[i as int]).len() > 0);
        assert(par_end(lv, i as int) == par_end(lv, i + 1));
        proof {
            lemma_par_end_bounds(lv, i + 1);
        }
        assert(i < pe);
        let ghost prev = out@;
        if preserve {
            out.append(line.as_str());
            out.append("\n");
            proof {
                reveal_strlit("\n");
                assert("\n"@ =~= seq!['\n']);
                assert(out@ =~= prev + lv[i as int] + seq!['\n']);
                assert(par_join(lv, i as int, pe, true) == lv[i as int] + seq!['\n'] + par_join(
                    lv,
                    i + 1,
                    pe,
                    true,
                ));
                assert(out@ + par_join(lv, i + 1, pe, true) =~= prev + par_join(
                    lv,
                    i as int,
                    pe,
                    true,
                ));
            }
        } else {
            if i > start {
                out.append(" ");
                proof {
                    reveal_strlit(" ");
                    assert(" "@ =~= seq![' ']);
                }
            }
            out.append(trimmed);
            proof {
                if i + 1 < pe {
                    assert(par_join(lv, i as int, pe, false) == trim_of(lv[i as int]) + seq![' ']
                        + par_join(lv, i + 1, pe, false));
                    if i > start {
                        assert(out@ + seq![' '] + par_join(lv, i + 1, pe, false) =~= prev + seq![
                            ' ',
                        ] + par_join(lv, i as int, pe, false));
                    } else {
                        assert(out@ + seq![' '] + par_join(lv, i + 1, pe, false) =~= par_join(
                            lv,
                            i as int,
                            pe,
                            false,
                        ));
                    }
                } else {
                    assert(i + 1 == pe);
                    assert(par_join(lv, i as int, pe, false) == trim_of(lv[i as int]));
                    if i > start {
                        assert(out@ =~= prev + seq![' '] + par_join(lv, i as int, pe, false));
                    } else {
                        assert(out@ =~= par_join(lv, i as int, pe, false));
                    }
                }
            }
        }
        i = i + 1;
    }
    let nxt = if i < n {
        i + 1
    } else {
        n
    };
    if i > start {
        (Some(out), nxt)
    } else {
        (None, nxt)
    }
}

// ---------------------------------------------------------------------
// Line relaxing
// ---------------------------------------------------------------------

/// Whether some character in `s[i..j)` is a newline.
pub open spec fn has_nl(s: Seq<char>, i: int, j: int) -> bool {
    exists|k: int| i <= k < j && s[k] == '\n'
}

/// The body of [`relax_of`]: each maximal whitespace run that contains
/// a newline becomes one space; all other characters stay.
pub open spec fn relax_core(s: Seq<char>, i: int) -> Seq<char>
    decreases s.len() - i,
{
    if 0 <= i && i < s.len() {
        if is_ws_char(s[i]) {
            let j = skip_ws(s, i);
            if i < j && j <= s.len() {
                (if has_nl(s, i, j) {
                    seq![' ']
                } else {
                    s.subrange(i, j)
                }) + relax_core(s, j)
            } else {
                Seq::empty()
            }
        } else {
            seq![s[i]] + relax_core(s, i + 1)
        }
    } else {
        Seq::empty()
    }
}

/// `s` trimmed, with every whitespace run containing a newline
/// collapsed to a single space.
pub open spec fn relax_of(s: Seq<char>) -> Seq<char> {
    relax_core(trim_of(s), 0)
}

/// Collapse line breaks in `s` as [`relax_of`] describes.
pub fn relax_lines(s: &str) -> (r: String)
    ensures
        r@ == relax_of(s@),
{
    let t = trim_exec(s);
    let n = t.unicode_len();
    let mut out = String::new();
    let mut i: usize = 0;
    while i < n
        invariant
            i <= n,
            n == t@.len(),
            t@ == trim_of(s@),
            out@ + relax_core(t@, i as int) == relax_core(t@, 0),
        decreases n - i,
    {
        let ghost prev = out@;
        if ws_at(t, i) {
            let j = skip_ws_exec(t, i);
            let mut k = i;
            let mut nl = false;
            while k < j
                invariant
                    i <= k <= j <= n,
                    n == t@.len(),
                    nl <==> has_nl(t@, i as int, k as int),
                decreases j - k,
            {
                if t.get_char(k) == '\n' {
                    nl = true;
                }
                k = k + 1;
            }
            proof {
                crate::text::lemma_skip_ws_bounds(t@, i + 1);
            }
            assert(j > i);
            if nl {
                out.append(" ");
                proof {
                    reveal_strlit(" ");
                    assert(" "@ =~= seq![' ']);
                }
            } else {
                out.append(t.substring_char(i, j));
            }
            proof {
                let piece = if has_nl(t@, i as int, j as int) {
                    seq![' ']
                } else {
                    t@.subrange(i as int, j as int)
                };
                assert(relax_core(t@, i as int) == piece + relax_core(t@, j as int));
                assert(out@ =~= prev + piece);
                assert(out@ + relax_core(t@, j as int) =~= prev + relax_core(t@, i as int));
            }
            i = j;
        } else {
            out.append(t.substring_char(i, i + 1));
            proof {
                let piece = seq![t@[i as int]];
                assert(t@.subrange(i as int, i + 1) =~= piece);
                assert(relax_core(t@, i as int) == piece + relax_core(t@, i + 1));
                assert(out@ =~= prev + piece);
                assert(out@ + relax_core(t@, i + 1) =~= prev + relax_core(t@, i as int));
            }
            i = i + 1;
        }
    }
    assert(relax_core(t@, n as int) =~= Seq::<char>::empty());
    assert(out@ =~= out@ + relax_core(t@, n as int));
    out
}

// ---------------------------------------------------------------------
// Argument documentation entries
// ---------------------------------------------------------------------

/// The lines of `s`, split on newlines (the final piece included even
/// when empty).
pub open spec fn lines_of(s: Seq<char>, i: int) -> Seq<Seq<char>>
    decreases s.len() - i,
{
    let j = find_from(s, i, '\n');
    if 0 <= i && i <= j && j < s.len() {
        seq![s.subrange(i, j)] + lines_of(s, j + 1)
    } else {
        seq![s.subrange(
            if 0 <= i && i <= s.len() {
                i
            } else {
                0
            },
            s.len() as int,
        )]
    }
}

/// The column of the colon ending an entry-head line: the first colon,
/// provided the text before it is not blank.
pub open spec fn head_col(line: Seq<char>) -> Option<int> {
    let c = find_from(line, 0, ':');
    if 0 <= c && c < line.len() && trim_of(line.subrange(0, c)).len() > 0 {
        Some(c)
    } else {
        None
    }
}

/// First line index `>= i` that is an entry head, or the line count.
pub open spec fn next_head(lines: Seq<Seq<char>>, i: int) -> int
    decreases lines.len() - i,
{
    if 0 <= i && i < lines.len() {
        if head_col(lines[i]) is Some {
            i
        } else {
            next_head(lines, i + 1)
        }
    } else {
        lines.len() as int
    }
}

pub proof fn lemma_next_head_bounds(lines: Seq<Seq<char>>, i: int)
    requires
        0 <= i <= lines.len(),
    ensures
        i <= next_head(lines, i) <= lines.len(),
    decreases lines.len() - i,
{
    if i < lines.len() && !(head_col(lines[i]) is Some) {
        lemma_next_head_bounds(lines, i + 1);
    }
}

/// The continuation lines `[k, j)` of an entry, each preceded by a
/// newline.
pub open spec fn body_join(lines: Seq<Seq<char>>, k: int, j: int) -> Seq<char>
    decreases j - k,
{
    if 0 <= k && k < j && j <= lines.len() {
        seq!['\n'] + lines[k] + body_join(lines, k + 1, j)
    } else {
        Seq::empty()
    }
}

/// One documented argument as scanned from an arguments block.
pub struct ArgEntry {
    pub name: Seq<char>,
    pub text: Seq<char>,
}

/// The argument entries of the given lines, in scan order, duplicates
/// included: each entry-head line starts an entry whose text runs to
/// the next entry head and is then line-collapsed.
pub open spec fn entries_from(lines: Seq<Seq<char>>, i: int) -> Seq<ArgEntry>
    decreases lines.len() - i,
{
    if 0 <= i && i < lines.len() {
        match head_col(lines[i]) {
            Option::None => entries_from(lines, i + 1),
            Option::Some(c) => {
                let j0 = next_head(lines, i + 1);
                let j = if i < j0 && j0 <= lines.len() {
                    j0
                } else {
                    i + 1
                };
                let name = trim_of(lines[i].subrange(0, c));
                let raw = lines[i].subrange(c + 1, lines[i].len() as int) + body_join(
                    lines,
                    i + 1,
                    j,
                );
                seq![ArgEntry { name, text: relax_of(raw) }] + entries_from(lines, j)
            },
        }
    } else {
        Seq::empty()
    }
}

/// The names of the entries, in order.
pub open spec fn entry_names(es: Seq<ArgEntry>) -> Seq<Seq<char>> {
    es.map_values(|e: ArgEntry| e.name)
}

/// Whether one of the first `upto` entries bears `name`.
pub open spec fn has_name(es: Seq<ArgEntry>, upto: int, name: Seq<char>) -> bool {
    exists|t: int| 0 <= t < upto && t < es.len() && es[t].name == name
}

/// The first entry name that repeats an earlier one, scanning from
/// position `k`.
pub open spec fn first_dup_from(es: Seq<ArgEntry>, k: int) -> Option<Seq<char>>
    decreases es.len() - k,
{
    if 0 <= k && k < es.len() {
        if has_name(es, k, es[k].name) {
            Some(es[k].name)
        } else {
            first_dup_from(es, k + 1)
        }
    } else {
        None
    }
}

/// The argument names a usage model declares, in order, with their
/// required flags: required, then optional, then the rest argument.
pub open spec fn expected_of(f: UsageForm) -> Seq<(Seq<char>, bool)> {
    f.required.map_values(|n: Seq<char>| (n, true)) + f.optional.map_values(
        |n: Seq<char>| (n, false),
    ) + (match f.rest {
        RestForm::NoRest => Seq::<(Seq<char>, bool)>::empty(),
        RestForm::OptRest(n) => seq![(n, false)],
        RestForm::ReqRest(n) => seq![(n, true)],
    })
}

/// The first expected name (from position `k`) that no entry bears.
pub open spec fn first_missing(exp: Seq<(Seq<char>, bool)>, es: Seq<ArgEntry>, k: int) -> Option<
    Seq<char>,
>
    decreases exp.len() - k,
{
    if 0 <= k && k < exp.len() {
        if !has_name(es, es.len() as int, exp[k].0) {
            Some(exp[k].0)
        } else {
            first_missing(exp, es, k + 1)
        }
    } else {
        None
    }
}

/// The text of the first entry bearing `name`.
pub open spec fn text_of(es: Seq<ArgEntry>, name: Seq<char>) -> Seq<char>
    decreases es.len(),
{
    if es.len() > 0 {
        if es[0].name == name {
            es[0].text
        } else {
            text_of(es.drop_first(), name)
        }
    } else {
        Seq::empty()
    }
}

pub proof fn lemma_text_of_at(es: Seq<ArgEntry>, name: Seq<char>, t: int)
    requires
        0 <= t < es.len(),
        es[t].name == name,
        forall|u: int| 0 <= u < t ==> es[u].name != name,
    ensures
        text_of(es, name) == es[t].text,
    decreases t,
{
    if t == 0 {
    } else {
        assert(es[0].name != name);
        lemma_text_of_at(es.drop_first(), name, t - 1);
    }
}

/// Ghost model of one validated argument documentation.
pub struct ArgDocForm {
    pub name: Seq<char>,
    pub required: bool,
    pub text: Seq<char>,
}

/// What parsing an arguments block yields for usage model `f` and
/// section body `s`: the validated entries in usage order, or the
/// first error, exactly as [`parse_argument_lines`] reports them.
pub open spec fn argdocs_result(f: UsageForm, s: Seq<char>) -> Result<
    Seq<ArgDocForm>,
    SpecErrorForm,
> {
    let es = entries_from(lines_of(s, 0), 0);
    match first_dup_from(es, 0) {
        Option::Some(n) => Err(SpecErrorForm::DuplicateArgDocF(n)),
        Option::None => {
            if s.len() > 0 && es.len() == 0 {
                Err(SpecErrorForm::UnexpectedArgFormatF)
            } else {
                let exp = expected_of(f);
                match first_missing(exp, es, 0) {
                    Option::Some(n) => Err(SpecErrorForm::MissingArgDocF(n, entry_names(es))),
                    Option::None => {
                        if es.len() != exp.len() {
                            Err(
                                SpecErrorForm::ArgCountMismatchF(
                                    exp.len() as int,
                                    es.len() as int,
                                ),
                            )
                        } else {
                            Ok(
                                Seq::new(
                                    exp.len(),
                                    |k: int|
                                        ArgDocForm {
                                            name: exp[k].0,
                                            required: exp[k].1,
                                            text: text_of(es, exp[k].0),
                                        },
                                ),
                            )
                        }
                    },
                }
            }
        },
    }
}

/// The ghost models carried by a vector of argument documentations.
pub open spec fn argdocs_view(v: Seq<ArgumentDoc>) -> Seq<ArgDocForm> {
    v.map_values(
        |d: ArgumentDoc| ArgDocForm { name: d.name@, required: d.required, text: d.desc@ },
    )
}

/// Whether `r` is what [`argdocs_result`] prescribes.
pub open spec fn argdocs_matches(
    f: UsageForm,
    s: Seq<char>,
    r: &Result<Vec<ArgumentDoc>, SpecError>,
) -> bool {
    match argdocs_result(f, s) {
        Ok(forms) => r matches Ok(v) && argdocs_view(v@) == forms,
        Err(ef) => r matches Err(e) && spec_err_is(e, ef),
    }
}

/// Split `s` into its lines.
pub fn split_lines(s: &str) -> (r: Vec<String>)
    ensures
        r.deep_view() == lines_of(s@, 0),
{
    let n = s.unicode_len();
    let mut pos: usize = 0;
    let mut out: Vec<String> = Vec::new();
    let mut done = false;
    while !done
        invariant
            pos <= n,
            n == s@.len(),
            !done ==> lines_of(s@, 0) == out.deep_view() + lines_of(s@, pos as int),
            done ==> lines_of(s@, 0) == out.deep_view(),
        decreases 2 * (n - pos) + (if done {
            0int
        } else {
            1int
        }),
    {
        let j = find_from_exec(s, pos, '\n');
        let ghost prev = out.deep_view();
        if j == n {
            out.push(String::from_str(s.substring_char(pos, n)));
            done = true;
            proof {
                assert(out.deep_view() =~= prev.push(s@.subrange(pos as int, n as int)));
                assert(lines_of(s@, pos as int) =~= seq![s@.subrange(pos as int, n as int)]);
                assert(out.deep_view() =~= prev + lines_of(s@, pos as int));
            }
        } else {
            out.push(String::from_str(s.substring_char(pos, j)));
            proof {
                assert(out.deep_view() =~= prev.push(s@.subrange(pos as int, j as int)));
                assert(lines_of(s@, pos as int) == seq![s@.subrange(pos as int, j as int)]
                    + lines_of(s@, j + 1));
                assert(out.deep_view() + lines_of(s@, j + 1) =~= prev + lines_of(
                    s@,
                    pos as int,
                ));
            }
            pos = j + 1;
        }
    }
    out
}

/// The colon column of an entry-head line, when the line is one.
pub fn head_col_exec(line: &str) -> (r: Option<usize>)
    ensures
        match head_col(line@) {
            Some(c) => r matches Some(rc) && rc as int == c,
            None => r is None,
        },
{
    let n = line.unicode_len();
    let c = find_from_exec(line, 0, ':');
    if c < n {
        let before = trim_exec(line.substring_char(0, c));
        if before.unicode_len() > 0 {
            return Some(c);
        }
    }
    None
}

/// Scan the entry-head lines of an arguments block into parallel name
/// and text vectors, stopping at the first duplicated name.
#[verifier::loop_isolation(false)]
#[verifier::rlimit(60)]
fn scan_entries(lines: &Vec<String>) -> (r: Result<(Vec<String>, Vec<String>), SpecError>)
    ensures
        ({
            let full = entries_from(lines.deep_view(), 0);
            match r {
                Ok((names, texts)) => {
                    &&& names@.len() == full.len()
                    &&& texts@.len() == full.len()
                    &&& forall|t: int| 0 <= t < full.len() ==> names@[t]@ == full[t].name
                    &&& forall|t: int| 0 <= t < full.len() ==> texts@[t]@ == full[t].text
                    &&& first_dup_from(full, 0) is None
                },
                Err(e) => {
                    &&& first_dup_from(full, 0) matches Some(n) && e matches
                        SpecError::DuplicateArgDoc(s) && s@ == n
                },
            }
        }),
{
    let ghost lv = lines.deep_view();
    let ghost full = entries_from(lv, 0);
    let nl = lines.len();
    assert(lv.len() == lines@.len());
    assert(full.skip(0) =~= full);
    let mut names: Vec<String> = Vec::new();
    let mut texts: Vec<String> = Vec::new();
    let mut i: usize = 0;
    while i < nl
        invariant
            i <= nl,
            names@.len() == texts@.len(),
            names@.len() <= full.len(),
            entries_from(lv, i as int) == full.skip(names@.len() as int),
            forall|t: int| 0 <= t < names@.len() ==> names@[t]@ == full[t].name,
            forall|t: int| 0 <= t < names@.len() ==> texts@[t]@ == full[t].text,
            first_dup_from(full, 0) == first_dup_from(full, names@.len() as int),
        decreases nl - i,
    {
        assert(lv[i as int] == lines@[i as int]@);
        let ghost bl = names@.len() as int;
        match head_col_exec(lines[i].as_str()) {
            None => {
                assert(entries_from(lv, i as int) == entries_from(lv, i + 1));
                i = i + 1;
            },
            Some(c) => {
                let ghost cg = c as int;
                assert(head_col(lv[i as int]) == Some(cg));
                assert(cg < lv[i as int].len());
                let line_len = lines[i].as_str().unicode_len();
                let name = String::from_str(trim_exec(lines[i].as_str().substring_char(0, c)));

                proof {
                    lemma_next_head_bounds(lv, i + 1);
                }
                let ghost j0 = next_head(lv, i + 1);
                let ghost e0 = ArgEntry {
                    name: trim_of(lv[i as int].subrange(0, cg)),
                    text: relax_of(
                        lv[i as int].subrange(cg + 1, lv[i as int].len() as int) + body_join(
                            lv,
                            i + 1,
                            j0,
                        ),
                    ),
                };
                assert(i < j0 && j0 <= lv.len());
                assert(entries_from(lv, i as int) == seq![e0] + entries_from(lv, j0));
                assert(full.skip(bl).len() == full.len() - bl);
                assert(bl < full.len());
                assert(full[bl] == full.skip(bl)[0]);
                assert(full[bl] == e0);
                assert(full[bl].name == name@);

                // A name documented twice is a fatal error.
                let mut t: usize = 0;
                while t < names.len()
                    invariant
                        t <= names@.len(),
                        forall|u: int| 0 <= u < t ==> names@[u]@ != name@,
                    decreases names@.len() - t,
                {
                    if names[t].eq(&name) {
                        proof {
                            assert(full[t as int].name == name@);
                            assert(0 <= t < bl && full[t as int].name == full[bl].name);
                            assert(has_name(full, bl, full[bl].name));
                            assert(first_dup_from(full, bl) == Some(name@));
                        }
                        return Err(SpecError::DuplicateArgDoc(name));
                    }
                    t = t + 1;
                }
                assert(forall|u: int| 0 <= u < bl ==> full[u].name != name@);
                assert(forall|u: int| 0 <= u < bl ==> full[u].name != full[bl].name);
                assert(!has_name(full, bl, full[bl].name));
                assert(first_dup_from(full, bl) == first_dup_from(full, bl + 1));

                let mut raw = String::from_str(lines[i].as_str().substring_char(c + 1, line_len));
                proof {
                    assert(body_join(lv, i + 1, i + 1) =~= Seq::<char>::empty());
                    assert(raw@ =~= lv[i as int].subrange(cg + 1, lv[i as int].len() as int)
                        + body_join(lv, i + 1, i + 1));
                }
                let mut k = i + 1;
                let mut stop = false;
                while !stop && k < nl
                    invariant
                        i + 1 <= k <= nl,
                        raw@ == lv[i as int].subrange(cg + 1, lv[i as int].len() as int)
                            + body_join(lv, i + 1, k as int),
                        !stop ==> next_head(lv, i + 1) == next_head(lv, k as int),
                        stop ==> next_head(lv, i + 1) == k,
                    decreases nl - k + (if stop {
                        0int
                    } else {
                        1int
                    }),
                {
                    assert(lv[k as int] == lines@[k as int]@);
                    match head_col_exec(lines[k].as_str()) {
                        Some(_) => {
                            assert(next_head(lv, k as int) == k);
                            stop = true;
                        },
                        None => {
                            assert(next_head(lv, k as int) == next_head(lv, k + 1));
                            let ghost prev = raw@;
                            raw.append("\n");
                            raw.append(lines[k].as_str());
                            proof {
                                reveal_strlit("\n");
                                assert("\n"@ =~= seq!['\n']);
                                assert(body_join(lv, k + 1, k + 1) =~= Seq::<char>::empty());
                                assert(body_join(lv, k as int, k + 1) =~= seq!['\n']
                                    + lv[k as int]);
                                lemma_body_join_snoc(lv, i + 1, k as int);
                                assert(raw@ =~= prev + seq!['\n'] + lv[k as int]);
                                assert(raw@ =~= lv[i as int].subrange(
                                    cg + 1,
                                    lv[i as int].len() as int,
                                ) + body_join(lv, i + 1, k + 1));
                            }
                            k = k + 1;
                        },
                    }
                }
                assert(k as int == j0);
                let text = relax_lines(raw.as_str());
                names.push(name);
                texts.push(text);
                proof {
                    assert(names@[bl]@ == full[bl].name);
                    assert(texts@[bl]@ == full[bl].text);
                    assert(full.skip(bl + 1) =~= full.skip(bl).drop_first());
                    assert((seq![e0] + entries_from(lv, j0)).drop_first() =~= entries_from(
                        lv,
                        j0,
                    ));
                    assert(entries_from(lv, k as int) =~= full.skip(bl + 1));
                }
                i = k;
            },
        }
    }
    assert(entries_from(lv, nl as int) =~= Seq::<ArgEntry>::empty());
    assert(full.skip(names@.len() as int).len() == 0);
    assert(names@.len() == full.len());
    assert(first_dup_from(full, full.len() as int) is None);
    Ok((names, texts))
}

/// The declared argument names of a usage model, in usage order, with
/// their required flags.
#[verifier::loop_isolation(false)]
fn build_expected(usage: &CommandUsage) -> (r: (Vec<String>, Vec<bool>))
    ensures
        ({
            let exp = expected_of(uform_of(usage));
            &&& r.0@.len() == exp.len()
            &&& r.1@.len() == exp.len()
            &&& forall|u: int| 0 <= u < exp.len() ==> r.0@[u]@ == exp[u].0
            &&& forall|u: int| 0 <= u < exp.len() ==> r.1@[u] == exp[u].1
        }),
{
    let ghost f = uform_of(usage);
    let ghost exp = expected_of(f);
    let mut exp_names: Vec<String> = Vec::new();
    let mut exp_req: Vec<bool> = Vec::new();
    let mut q: usize = 0;
    while q < usage.required.len()
        invariant
            q <= usage.required@.len(),
            exp_names@.len() == q,
            exp_req@.len() == q,
            forall|u: int| 0 <= u < q ==> exp_names@[u]@ == exp[u].0,
            forall|u: int| 0 <= u < q ==> exp_req@[u] == exp[u].1,
        decreases usage.required@.len() - q,
    {
        exp_names.push(usage.required[q].clone());
        exp_req.push(true);
        proof {
            assert(exp[q as int] == (f.required[q as int], true));
            assert(f.required[q as int] == usage.required@[q as int]@);
        }
        q = q + 1;
    }
    let mut q2: usize = 0;
    while q2 < usage.optional.len()
        invariant
            q2 <= usage.optional@.len(),
            exp_names@.len() == usage.required@.len() + q2,
            exp_req@.len() == exp_names@.len(),
            forall|u: int| 0 <= u < exp_names@.len() ==> exp_names@[u]@ == exp[u].0,
            forall|u: int| 0 <= u < exp_names@.len() ==> exp_req@[u] == exp[u].1,
        decreases usage.optional@.len() - q2,
    {
        exp_names.push(usage.optional[q2].clone());
        exp_req.push(false);
        proof {
            let w = f.required.len() + q2;
            assert(exp[w as int] == (f.optional[q2 as int], false));
            assert(f.optional[q2 as int] == usage.optional@[q2 as int]@);
        }
        q2 = q2 + 1;
    }
    match &usage.rest {
        crate::usage::RestArg::NoRest => {},
        crate::usage::RestArg::Optional(n) => {
            exp_names.push(n.clone());
            exp_req.push(false);
            proof {
                let w = exp.len() - 1;
                assert(exp[w] == (n@, false));
            }
        },
        crate::usage::RestArg::Required(n) => {
            exp_names.push(n.clone());
            exp_req.push(true);
            proof {
                let w = exp.len() - 1;
                assert(exp[w] == (n@, true));
            }
        },
    }
    assert(exp_names@.len() == exp.len());
    (exp_names, exp_req)
}

/// Parse an arguments section body against the usage model.
///
/// Each `name:` line starts an entry running to the next such line;
/// entries are validated against the declared argument names (no
/// duplicates, none missing, none extra) and returned in usage order,
/// tagged with their required flags.
#[verifier::loop_isolation(false)]
#[verifier::rlimit(60)]
pub fn parse_argument_lines(usage: &CommandUsage, s: &str) -> (r: Result<
    Vec<ArgumentDoc>,
    SpecError,
>)
    ensures
        argdocs_matches(uform_of(usage), s@, &r),
{
    let lines = split_lines(s);
    let ghost lv = lines.deep_view();
    let ghost full = entries_from(lv, 0);
    let (names, texts) = match scan_entries(&lines) {
        Ok(p) => p,
        Err(e) => {
            return Err(e);
        },
    };

    if s.unicode_len() > 0 && names.len() == 0 {
        return Err(SpecError::UnexpectedArgFormat);
    }

    let ghost f = uform_of(usage);
    let ghost exp = expected_of(f);
    let (exp_names, exp_req) = build_expected(usage);

    // Every declared argument must be documented.
    let mut k2: usize = 0;
    while k2 < exp_names.len()
        invariant
            k2 <= exp.len(),
            first_missing(exp, full, 0) == first_missing(exp, full, k2 as int),
        decreases exp.len() - k2,
    {
        let mut found = false;
        let mut t: usize = 0;
        while t < names.len()
            invariant
                t <= names@.len(),
                found <==> has_name(full, t as int, exp[k2 as int].0),
            decreases names@.len() - t,
        {
            if names[t].eq(&exp_names[k2]) {
                found = true;
                proof {
                    assert(0 <= t < t + 1 && full[t as int].name == exp[k2 as int].0);
                    assert(has_name(full, t + 1, exp[k2 as int].0));
                }
            } else {
                proof {
                    assert(full[t as int].name != exp[k2 as int].0);
                    assert(has_name(full, t + 1, exp[k2 as int].0) == has_name(
                        full,
                        t as int,
                        exp[k2 as int].0,
                    )) by {
                        if has_name(full, t + 1, exp[k2 as int].0) {
                            let target = exp[k2 as int].0;
                            let u = choose|u: int|
                                0 <= u < t + 1 && u < full.len() && full[u].name == target;
                            assert(u < t);
                        }
                    }
                }
            }
            t = t + 1;
        }
        if !found {
            assert(!has_name(full, full.len() as int, exp[k2 as int].0));
            assert(first_missing(exp, full, k2 as int) == Some(exp[k2 as int].0));
            let have = names.clone();
            proof {
                assert(have.deep_view() =~= entry_names(full));
            }
            return Err(SpecError::MissingArgDoc(exp_names[k2].clone(), have));
        }
        assert(has_name(full, full.len() as int, exp[k2 as int].0));
        assert(first_missing(exp, full, k2 as int) == first_missing(exp, full, k2 as int + 1));
        k2 = k2 + 1;
    }
    assert(first_missing(exp, full, 0) is None);

    if names.len() != exp_names.len() {
        return Err(SpecError::ArgCountMismatch(exp_names.len(), names.len()));
    }

    // Reorder into usage order, tagging each entry's required flag.
    let mut out: Vec<ArgumentDoc> = Vec::new();
    let mut k3: usize = 0;
    while k3 < exp_names.len()
        invariant
            k3 <= exp.len(),
            out@.len() == k3,
            forall|u: int| 0 <= u < k3 ==> out@[u].name@ == exp[u].0,
            forall|u: int| 0 <= u < k3 ==> out@[u].required == exp[u].1,
            forall|u: int| 0 <= u < k3 ==> out@[u].desc@ == text_of(full, exp[u].0),
        decreases exp.len() - k3,
    {
        let mut t: usize = 0;
        let mut found_at: usize = 0;
        let mut found = false;
        while t < names.len()
            invariant
                t <= names@.len(),
                found ==> found_at < full.len() && full[found_at as int].name == exp[k3 as int].0
                    && forall|u: int| 0 <= u < found_at ==> full[u].name != exp[k3 as int].0,
                !found ==> forall|u: int| 0 <= u < t ==> full[u].name != exp[k3 as int].0,
            decreases names@.len() - t,
        {
            if !found && names[t].eq(&exp_names[k3]) {
                found = true;
                found_at = t;
            }
            t = t + 1;
        }
        if found {
            proof {
                lemma_text_of_at(full, exp[k3 as int].0, found_at as int);
            }
            out.push(
                ArgumentDoc {
                    name: exp_names[k3].clone(),
                    required: exp_req[k3],
                    desc: texts[found_at].clone(),
                },
            );
        } else {
            // Unreachable: the missing-argument pass above found every
            // declared name, so the scan cannot fail here.
            assert(has_name(full, full.len() as int, exp[k3 as int].0)) by {
                lemma_first_missing_none(exp, full, 0, k3 as int);
            }
            proof {
                let target = exp[k3 as int].0;
                let u = choose|u: int|
                    0 <= u < full.len() && u < full.len() && full[u].name == target;
                assert(full[u].name == target);
            }
            assert(false);
        }
        k3 = k3 + 1;
    }
    let ghost forms = match argdocs_result(f, s@) {
        Ok(fo) => fo,
        Err(_) => Seq::empty(),
    };
    proof {
        assert(argdocs_result(f, s@) is Ok);
        assert(argdocs_view(out@) =~= forms);
    }
    Ok(out)
}

/// Appending one line to a body-join extends it on the right.
pub proof fn lemma_body_join_snoc(lines: Seq<Seq<char>>, i: int, k: int)
    requires
        0 <= i <= k,
        k < lines.len(),
    ensures
        body_join(lines, i, k + 1) =~= body_join(lines, i, k) + seq!['\n'] + lines[k],
    decreases k - i,
{
    if i < k {
        lemma_body_join_snoc(lines, i + 1, k);
        assert(body_join(lines, i, k + 1) == seq!['\n'] + lines[i] + body_join(
            lines,
            i + 1,
            k + 1,
        ));
        assert(body_join(lines, i, k) == seq!['\n'] + lines[i] + body_join(lines, i + 1, k));
        assert(body_join(lines, i, k + 1) =~= body_join(lines, i, k) + seq!['\n'] + lines[k]);
    } else {
        assert(body_join(lines, i, i) =~= Seq::<char>::empty());
        assert(body_join(lines, i + 1, i + 1) =~= Seq::<char>::empty());
        assert(body_join(lines, i, i + 1) == seq!['\n'] + lines[i] + body_join(
            lines,
            i + 1,
            i + 1,
        ));
    }
}

/// When no expected name is missing, each one is documented.
pub proof fn lemma_first_missing_none(
    exp: Seq<(Seq<char>, bool)>,
    es: Seq<ArgEntry>,
    k: int,
    target: int,
)
    requires
        0 <= k <= target < exp.len(),
        first_missing(exp, es, k) is None,
    ensures
        has_name(es, es.len() as int, exp[target].0),
    decreases target - k,
{
    if k < target {
        lemma_first_missing_none(exp, es, k + 1, target);
    }
}


// ---------------------------------------------------------------------
// Documentation blocks
// ---------------------------------------------------------------------

/// The full parsed documentation of one command.
#[derive(Debug, Clone, PartialEq, Eq)]
pub struct CommandDocs {
    /// The usage model parsed from the first paragraph.
    pub usage: CommandUsage,
    /// The summary section, line-collapsed, if present.
    pub summary: Option<String>,
    /// One entry per declared argument, in usage order.
    pub args: Vec<ArgumentDoc>,
    /// The examples section, verbatim, if present.
    pub examples: Option<String>,
}

/// The documentation of a command set: only an optional summary.
#[derive(Debug, Clone, PartialEq, Eq)]
pub struct CommandSetDocs {
    /// The summary paragraphs, joined, if any.
    pub summary: Option<String>,
}

/// The `# <marker>` header of a section paragraph: the marker word and
/// the text after the header line, or `None` when the paragraph has no
/// such header.
pub open spec fn header_of(par: Seq<char>) -> Option<(Seq<char>, Seq<char>)> {
    let a = skip_ws(par, 0);
    if 0 <= a && a < par.len() && par[a] == '#' {
        let m0 = skip_ws(par, a + 1);
        let m1 = scan_nonws(par, m0);
        if a < m0 && m0 < m1 && m1 <= par.len() {
            let t = skip_sp(par, m1);
            if m1 <= t && t < par.len() && par[t] == '\n' {
                Some((par.subrange(m0, m1), par.subrange(t + 1, par.len() as int)))
            } else {
                None
            }
        } else {
            None
        }
    } else {
        None
    }
}

/// Ghost model of fully parsed command documentation.
pub struct DocsForm {
    pub usage: UsageForm,
    pub summary: Option<Seq<char>>,
    pub args: Seq<ArgDocForm>,
    pub examples: Option<Seq<char>>,
}

/// The final validation once every section paragraph is consumed: the
/// short description must be non-empty, and an absent arguments
/// section is validated like an empty one.
pub open spec fn finalize_docs(
    f: UsageForm,
    summary: Option<Seq<char>>,
    args: Option<Seq<ArgDocForm>>,
    examples: Option<Seq<char>>,
) -> Result<DocsForm, SpecErrorForm> {
    if trim_of(f.desc).len() == 0 {
        Err(SpecErrorForm::MissingDescriptionF)
    } else {
        match args {
            Option::Some(a) => Ok(DocsForm { usage: f, summary, args: a, examples }),
            Option::None => match argdocs_result(f, Seq::empty()) {
                Ok(a) => Ok(DocsForm { usage: f, summary, args: a, examples }),
                Err(e) => Err(e),
            },
        }
    }
}

/// The section paragraphs from line `i` on, folded over the summary /
/// arguments / examples state.  Each paragraph must carry a `# marker`
/// header; known markers fill their slot (a second fill is an error),
/// unknown markers are ignored.
pub open spec fn sections_result(
    lines: Seq<Seq<char>>,
    i: int,
    f: UsageForm,
    summary: Option<Seq<char>>,
    args: Option<Seq<ArgDocForm>>,
    examples: Option<Seq<char>>,
) -> Result<DocsForm, SpecErrorForm>
    decreases lines.len() - i,
{
    let j = par_end(lines, i);
    if 0 <= i && i < j && j <= lines.len() {
        let par = par_join(lines, i, j, true);
        let nx0 = next_par(lines, i);
        let nx = if i < nx0 && nx0 <= lines.len() {
            nx0
        } else {
            i + 1
        };
        match header_of(par) {
            Option::None => Err(SpecErrorForm::MissingHeaderF),
            Option::Some((m, rest)) => {
                if ci_eq(m, "description"@) || ci_eq(m, "overview"@) || ci_eq(m, "summary"@) {
                    if summary is Some {
                        Err(SpecErrorForm::MultipleSummariesF)
                    } else {
                        sections_result(lines, nx, f, Some(relax_of(rest)), args, examples)
                    }
                } else if ci_eq(m, "arguments"@) || ci_eq(m, "parameters"@) {
                    if args is Some {
                        Err(SpecErrorForm::MultipleArgumentSectionsF)
                    } else {
                        match argdocs_result(f, rest) {
                            Ok(a) => sections_result(lines, nx, f, summary, Some(a), examples),
                            Err(e) => Err(e),
                        }
                    }
                } else if ci_eq(m, "examples"@) {
                    if examples is Some {
                        Err(SpecErrorForm::MultipleExamplesF)
                    } else {
                        sections_result(lines, nx, f, summary, args, Some(rest))
                    }
                } else {
                    sections_result(lines, nx, f, summary, args, examples)
                }
            },
        }
    } else {
        finalize_docs(f, summary, args, examples)
    }
}

/// What parsing a whole documentation block yields: the first
/// paragraph through the usage grammar, the rest through the section
/// machinery.
pub open spec fn docs_result(lines: Seq<Seq<char>>) -> Result<DocsForm, SpecErrorForm> {
    let j = par_end(lines, 0);
    let p0 = par_join(lines, 0, j, false);
    match usage_outcome(p0) {
        UsageOutcome::BadParagraph => Err(SpecErrorForm::BadParagraphF),
        UsageOutcome::BadIdClause => Err(SpecErrorForm::BadIdClauseF),
        UsageOutcome::TrailingContent(t) => Err(SpecErrorForm::TrailingUsageF(t)),
        UsageOutcome::Parsed(f) => sections_result(
            lines,
            next_par(lines, 0),
            f,
            Option::None,
            Option::None,
            Option::None,
        ),
    }
}

/// The ghost content of an optional string.
pub open spec fn opt_view(o: &Option<String>) -> Option<Seq<char>> {
    match o {
        Some(s) => Some(s@),
        None => None,
    }
}

/// Whether the executable [`CommandDocs`] carries exactly the model.
pub open spec fn docs_is_form(cd: &CommandDocs, df: DocsForm) -> bool {
    &&& usage_is_form(&cd.usage, df.usage)
    &&& opt_view(&cd.summary) == df.summary
    &&& argdocs_view(cd.args@) == df.args
    &&& opt_view(&cd.examples) == df.examples
}

/// Whether `r` is what [`docs_result`] prescribes for these lines.
pub open spec fn docs_matches(lines: Seq<Seq<char>>, r: &Result<CommandDocs, SpecError>) -> bool {
    match docs_result(lines) {
        Ok(df) => r matches Ok(cd) && docs_is_form(cd, df),
        Err(ef) => r matches Err(e) && spec_err_is(e, ef),
    }
}

/// Parse the `# <marker>` header of a section paragraph.
fn header_exec(par: &str) -> (r: Option<(String, String)>)
    ensures
        match header_of(par@) {
            Some((m, rest)) => r matches Some(p) && p.0@ == m && p.1@ == rest,
            None => r is None,
        },
{
    let n = par.unicode_len();
    let a = skip_ws_exec(par, 0);
    if !(a < n && par.get_char(a) == '#') {
        return None;
    }
    let m0 = skip_ws_exec(par, a + 1);
    let m1 = scan_nonws_exec(par, m0);
    if !(m0 < m1) {
        return None;
    }
    let t = skip_sp_exec(par, m1);
    if !(t < n && par.get_char(t) == '\n') {
        return None;
    }
    Some(
        (
            String::from_str(par.substring_char(m0, m1)),
            String::from_str(par.substring_char(t + 1, n)),
        ),
    )
}

/// The ghost content of an optional argument-documentation vector.
pub open spec fn opt_args_view(o: &Option<Vec<ArgumentDoc>>) -> Option<Seq<ArgDocForm>> {
    match o {
        Some(v) => Some(argdocs_view(v@)),
        None => None,
    }
}

impl CommandDocs {
    /// Parse a command's documentation lines: the first paragraph as
    /// the usage line, each further paragraph as a marked section, and
    /// validate the result.
    #[verifier::loop_isolation(false)]
    #[verifier::rlimit(60)]
    pub fn parse_docs(lines: &Vec<String>) -> (r: Result<CommandDocs, SpecError>)
        ensures
            docs_matches(lines.deep_view(), &r),
    {
        let ghost lv = lines.deep_view();
        assert(lv.len() == lines@.len());
        let (par0, start) = take_paragraph(lines, 0, false);
        let usage = match par0 {
            Some(p) => {
                match parse_usage_desc(p.as_str()) {
                    Ok(u) => u,
                    Err(e) => {
                        return Err(e);
                    },
                }
            },
            None => {
                proof {
                    reveal_strlit("");
                    assert(""@ =~= Seq::<char>::empty());
                    assert(par_join(lv, 0, 0, false) =~= Seq::<char>::empty());
                }
                match parse_usage_desc("") {
                    Ok(u) => u,
                    Err(e) => {
                        return Err(e);
                    },
                }
            },
        };
        let ghost f = uform_of(&usage);
        assert(usage_outcome(par_join(lv, 0, par_end(lv, 0), false)) == UsageOutcome::Parsed(f));

        let mut summary: Option<String> = None;
        let mut args: Option<Vec<ArgumentDoc>> = None;
        let mut examples: Option<String> = None;
        let mut i = start;
        let mut done = false;
        let ghost target = docs_result(lv);
        while !done
            invariant
                i <= lines@.len(),
                target == sections_result(
                    lv,
                    i as int,
                    f,
                    opt_view(&summary),
                    opt_args_view(&args),
                    opt_view(&examples),
                ),
                done ==> par_end(lv, i as int) == i,
            decreases lines@.len() - i + (if done {
                0int
            } else {
                1int
            }),
        {
            proof {
                lemma_par_end_bounds(lv, i as int);
            }
            let (par, nx) = take_paragraph(lines, i, true);
            let p = match par {
                Some(p) => p,
                None => {
                    done = true;
                    continue ;
                },
            };
            assert(par_end(lv, i as int) > i);
            let header = match header_exec(p.as_str()) {
                Some(h) => h,
                None => {
                    return Err(SpecError::MissingHeader);
                },
            };
            let (marker, rest) = header;
            if eq_ci(marker.as_str(), "description") || eq_ci(marker.as_str(), "overview")
                || eq_ci(marker.as_str(), "summary") {
                if summary.is_some() {
                    return Err(SpecError::MultipleSummaries);
                }
                summary = Some(relax_lines(rest.as_str()));
            } else if eq_ci(marker.as_str(), "arguments") || eq_ci(marker.as_str(), "parameters") {
                if args.is_some() {
                    return Err(SpecError::MultipleArgumentSections);
                }
                match parse_argument_lines(&usage, rest.as_str()) {
                    Ok(v) => {
                        args = Some(v);
                    },
                    Err(e) => {
                        return Err(e);
                    },
                }
            } else if eq_ci(marker.as_str(), "examples") {
                if examples.is_some() {
                    return Err(SpecError::MultipleExamples);
                }
                examples = Some(rest);
            }
            i = nx;
        }

        let dtrim = trim_exec(usage.desc.as_str());
        if dtrim.unicode_len() == 0 {
            return Err(SpecError::MissingDescription);
        }
        let args_final = match args {
            Some(v) => v,
            None => {
                proof {
                    reveal_strlit("");
                    assert(""@ =~= Seq::<char>::empty());
                }
                match parse_argument_lines(&usage, "") {
                    Ok(v) => v,
                    Err(e) => {
                        return Err(e);
                    },
                }
            },
        };
        Ok(CommandDocs { usage, summary, args: args_final, examples })
    }

    /// The error reported when a command has no documentation at all.
    pub fn no_docs() -> (r: Result<CommandDocs, SpecError>)
        ensures
            r matches Err(e) && e is MissingDocs,
    {
        Err(SpecError::MissingDocs)
    }
}

// ---------------------------------------------------------------------
// Command-set documentation
// ---------------------------------------------------------------------

/// The summary paragraphs of a command set's documentation, collapsed
/// to single lines, up to the first blank-on-blank stop.
pub open spec fn set_pars(lines: Seq<Seq<char>>, i: int) -> Seq<Seq<char>>
    decreases lines.len() - i,
{
    let j = par_end(lines, i);
    if 0 <= i && i < j && j <= lines.len() {
        let nx0 = next_par(lines, i);
        let nx = if i < nx0 && nx0 <= lines.len() {
            nx0
        } else {
            i + 1
        };
        seq![par_join(lines, i, j, false)] + set_pars(lines, nx)
    } else {
        Seq::empty()
    }
}

/// Paragraphs joined by single newlines.
pub open spec fn join_nl(ps: Seq<Seq<char>>) -> Seq<char>
    decreases ps.len(),
{
    if ps.len() == 0 {
        Seq::empty()
    } else if ps.len() == 1 {
        ps[0]
    } else {
        ps[0] + seq!['\n'] + join_nl(ps.drop_first())
    }
}

/// The summary a command set's documentation lines carry, if any.
pub open spec fn set_summary_of(lines: Seq<Seq<char>>) -> Option<Seq<char>> {
    let t = trim_of(join_nl(set_pars(lines, 0)));
    if t.len() == 0 {
        Option::None
    } else {
        Option::Some(t)
    }
}

impl CommandSetDocs {
    /// Parse a command set's documentation: its paragraphs, collapsed
    /// and joined, become the summary.
    #[verifier::loop_isolation(false)]
    pub fn parse_docs(lines: &Vec<String>) -> (r: Result<CommandSetDocs, SpecError>)
        ensures
            r matches Ok(d) && opt_view(&d.summary) == set_summary_of(lines.deep_view()),
    {
        let ghost lv = lines.deep_view();
        assert(lv.len() == lines@.len());
        let mut acc = String::new();
        let mut i: usize = 0;
        let mut done = false;
        while !done
            invariant
                i <= lines@.len(),
                join_nl(set_pars(lv, 0)) == (if set_pars(lv, i as int).len() == 0 {
                    acc@
                } else if acc@.len() == 0 {
                    join_nl(set_pars(lv, i as int))
                } else {
                    acc@ + seq!['\n'] + join_nl(set_pars(lv, i as int))
                }),
                done ==> set_pars(lv, i as int).len() == 0,
            decreases lines@.len() - i + (if done {
                0int
            } else {
                1int
            }),
        {
            proof {
                lemma_par_end_bounds(lv, i as int);
            }
            let (par, nx) = take_paragraph(lines, i, false);
            let p = match par {
                Some(p) => p,
                None => {
                    assert(set_pars(lv, i as int) =~= Seq::<Seq<char>>::empty());
                    done = true;
                    continue ;
                },
            };
            let ghost pe = par_end(lv, i as int);
            assert(pe > i);
            let ghost rest = set_pars(lv, nx as int);
            assert(set_pars(lv, i as int) == seq![par_join(lv, i as int, pe, false)] + rest);
            assert(set_pars(lv, i as int)[0] == p@);
            assert(set_pars(lv, i as int).drop_first() =~= rest);
            let ghost prev = acc@;
            if acc.unicode_len() > 0 {
                acc.append("\n");
            }
            acc.append(p.as_str());
            proof {
                reveal_strlit("\n");
                assert("\n"@ =~= seq!['\n']);
                if rest.len() == 0 {
                    assert(join_nl(set_pars(lv, i as int)) == p@);
                    if prev.len() == 0 {
                        assert(acc@ =~= p@);
                    } else {
                        assert(acc@ =~= prev + seq!['\n'] + p@);
                    }
                } else {
                    assert(join_nl(set_pars(lv, i as int)) == p@ + seq!['\n'] + join_nl(rest));
                    if prev.len() == 0 {
                        assert(acc@ + seq!['\n'] + join_nl(rest) =~= join_nl(
                            set_pars(lv, i as int),
                        ));
                    } else {
                        assert(acc@ + seq!['\n'] + join_nl(rest) =~= prev + seq!['\n'] + (p@
                            + seq!['\n'] + join_nl(rest)));
                    }
                }
            }
            i = nx;
        }
        let t = trim_exec(acc.as_str());
        if t.unicode_len() == 0 {
            Ok(CommandSetDocs { summary: None })
        } else {
            Ok(CommandSetDocs { summary: Some(String::from_str(t)) })
        }
    }

    /// A command set without documentation defaults to no summary.
    pub fn no_docs() -> (r: Result<CommandSetDocs, SpecError>)
        ensures
            r matches Ok(d) && d.summary is None,
    {
        Ok(CommandSetDocs { summary: None })
    }
}


/// A successful section pass keeps the usage model it was given.
pub proof fn lemma_sections_usage(
    lines: Seq<Seq<char>>,
    i: int,
    f: UsageForm,
    summary: Option<Seq<char>>,
    args: Option<Seq<ArgDocForm>>,
    examples: Option<Seq<char>>,
)
    ensures
        match sections_result(lines, i, f, summary, args, examples) {
            Ok(df) => df.usage == f,
            Err(_) => true,
        },
    decreases lines.len() - i,
{
    let j = par_end(lines, i);
    if 0 <= i && i < j && j <= lines.len() {
        let par = par_join(lines, i, j, true);
        let nx0 = next_par(lines, i);
        let nx = if i < nx0 && nx0 <= lines.len() {
            nx0
        } else {
            i + 1
        };
        match header_of(par) {
            Option::None => {},
            Option::Some((m, rest)) => {
                if ci_eq(m, "description"@) || ci_eq(m, "overview"@) || ci_eq(m, "summary"@) {
                    if !(summary is Some) {
                        lemma_sections_usage(lines, nx, f, Some(relax_of(rest)), args, examples);
                    }
                } else if ci_eq(m, "arguments"@) || ci_eq(m, "parameters"@) {
                    if !(args is Some) {
                        match argdocs_result(f, rest) {
                            Ok(a) => {
                                lemma_sections_usage(lines, nx, f, summary, Some(a), examples);
                            },
                            Err(_) => {},
                        }
                    }
                } else if ci_eq(m, "examples"@) {
                    if !(examples is Some) {
                        lemma_sections_usage(lines, nx, f, summary, args, Some(rest));
                    }
                } else {
                    lemma_sections_usage(lines, nx, f, summary, args, examples);
                }
            },
        }
    }
}

/// A successful documentation parse carries the usage model of its
/// first paragraph.
pub proof fn lemma_docs_result_usage(lines: Seq<Seq<char>>)
    ensures
        match docs_result(lines) {
            Ok(df) => usage_outcome(par_join(lines, 0, par_end(lines, 0), false))
                == UsageOutcome::Parsed(df.usage),
            Err(_) => true,
        },
{
    let p0 = par_join(lines, 0, par_end(lines, 0), false);
    match usage_outcome(p0) {
        UsageOutcome::Parsed(f) => {
            lemma_sections_usage(
                lines,
                next_par(lines, 0),
                f,
                Option::None,
                Option::None,
                Option::None,
            );
        },
        _ => {},
    }
}

} // verus!
