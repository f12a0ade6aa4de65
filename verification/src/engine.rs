//! The arity engine: a single linear pass over a command's ordered
//! field list.  Required fields each take one token, optional fields
//! take one when available, and the trailing rest field — plain,
//! subcommand or path — consumes the remainder.  The engine returns a
//! fully constructed command value or exactly one structured error.
use vstd::prelude::*;

use crate::command::{
    cmd_wf, lemma_cmds_wf_index, CommandSet, CommandSpec, ConvKind, set_wf,
};
use crate::errors::{ArgumentName, CommandParseError, ConvertError, IdParseError, PathParseError};
use crate::help::HelpTopic;
use crate::lower::{lower_of, lowercase};
use crate::trie::{agg_ids, cand_names, keys_of, TrieLookup};
use crate::usage::{uform_of, RestForm, UsageForm};

verus! {

// ---------------------------------------------------------------------
// Values
// ---------------------------------------------------------------------

/// One converted argument value.
#[derive(Debug, Clone, PartialEq, Eq)]
pub enum ArgValue {
    /// The token kept as text.
    Text(String),
    /// The token parsed as a decimal number.
    Nat(u64),
}

/// A parsed command path: the resolved head identifier and, for a
/// subcommand, the optional nested remainder.
#[derive(Debug, PartialEq, Eq)]
pub struct CommandPath {
    /// The index of the resolved command in its set.
    pub head: usize,
    /// The nested path, when the head command is a subcommand and
    /// further tokens were given.
    pub sub: Option<Box<CommandPath>>,
}

impl CommandPath {
    /// The root identifier of the path.
    pub fn head(&self) -> (r: usize)
        ensures
            r == self.head,
    {
        self.head
    }
}

/// The value one field received.
#[derive(Debug, PartialEq, Eq)]
pub enum FieldValue {
    /// A single converted token.
    One(ArgValue),
    /// An optional field whose token was absent.
    Missing,
    /// A plain rest field's converted tokens.
    Many(Vec<ArgValue>),
    /// A subcommand rest field's nested command value.
    Sub(Box<CommandValue>),
    /// A path rest field's parsed path (`None` only for an optional
    /// rest with no tokens).
    PathVal(Option<CommandPath>),
}

/// A fully constructed command value: the resolved command's index
/// and one value per field, in order.
#[derive(Debug, PartialEq, Eq)]
pub struct CommandValue {
    /// The index of the resolved command in its set.
    pub id: usize,
    /// The field values, in declared order.
    pub fields: Vec<FieldValue>,
}

// ---------------------------------------------------------------------
// Conversion
// ---------------------------------------------------------------------

/// Whether every character is a decimal digit.
pub open spec fn all_digits(t: Seq<char>) -> bool {
    forall|k: int| 0 <= k < t.len() ==> 48 <= (#[trigger] t[k]) as u32 <= 57
}

/// The value of a decimal digit string.
pub open spec fn dec_val(t: Seq<char>) -> nat
    decreases t.len(),
{
    if t.len() == 0 {
        0
    } else {
        (dec_val(t.drop_last()) * 10 + (t.last() as u32 - 48)) as nat
    }
}

/// Whether a token is accepted by a conversion.
pub open spec fn conv_ok(k: ConvKind, t: Seq<char>) -> bool {
    match k {
        ConvKind::Text => true,
        ConvKind::Nat => t.len() > 0 && all_digits(t) && dec_val(t) <= u64::MAX,
    }
}

/// Whether `av` is the converted form of token `t`.
pub open spec fn arg_is(av: &ArgValue, k: ConvKind, t: Seq<char>) -> bool {
    match k {
        ConvKind::Text => av matches ArgValue::Text(s) && s@ == t,
        ConvKind::Nat => av matches ArgValue::Nat(v) && v == dec_val(t),
    }
}

/// Longer digit prefixes never shrink the value.
pub proof fn lemma_dec_val_prefix(t: Seq<char>, i: int)
    requires
        0 <= i <= t.len(),
        all_digits(t),
    ensures
        dec_val(t.take(i)) <= dec_val(t),
    decreases t.len() - i,
{
    if i < t.len() {
        lemma_dec_val_prefix(t, i + 1);
        assert(t.take(i + 1).drop_last() =~= t.take(i));
        assert(t.take(i + 1).last() == t[i]);
        assert(48 <= t[i] as u32 <= 57);
        assert(dec_val(t.take(i + 1)) == (dec_val(t.take(i)) * 10 + (t[i] as u32 - 48)) as nat);
        assert(dec_val(t.take(i)) * 10 + (t[i] as u32 - 48) >= dec_val(t.take(i)));
    } else {
        assert(t.take(i) =~= t);
    }
}

/// Parse a decimal number that fits a `u64`.
pub fn parse_nat(s: &str) -> (r: Option<u64>)
    ensures
        match r {
            Some(v) => conv_ok(ConvKind::Nat, s@) && v == dec_val(s@),
            None => !conv_ok(ConvKind::Nat, s@),
        },
{
    let n = s.unicode_len();
    if n == 0 {
        return None;
    }
    let mut acc: u64 = 0;
    let mut i: usize = 0;
    while i < n
        invariant
            i <= n,
            n == s@.len(),
            n > 0,
            all_digits(s@.take(i as int)),
            acc == dec_val(s@.take(i as int)),
        decreases n - i,
    {
        let code = s.get_char(i) as u32;
        if code < 48 || code > 57 {
            assert(!all_digits(s@)) by {
                assert(s@[i as int] as u32 == code);
            }
            return None;
        }
        let d = (code - 48) as u64;
        proof {
            assert(s@.take(i + 1).drop_last() =~= s@.take(i as int));
            assert(s@.take(i + 1).last() == s@[i as int]);
            assert(dec_val(s@.take(i + 1)) == (dec_val(s@.take(i as int)) * 10 + d) as nat);
        }
        if acc > (u64::MAX - d) / 10 {
            proof {
                assert(acc * 10 + d > u64::MAX) by (nonlinear_arith)
                    requires
                        acc > (u64::MAX - d) / 10,
                        d <= 9,
                        acc >= 0,
                {
                }
                if all_digits(s@) {
                    lemma_dec_val_prefix(s@, i + 1);
                    assert(dec_val(s@) > u64::MAX);
                }
            }
            return None;
        }
        assert(acc * 10 + d <= u64::MAX) by (nonlinear_arith)
            requires
                acc <= (u64::MAX - d) / 10,
                d <= 9,
                acc >= 0,
        {
        }
        acc = acc * 10 + d;
        proof {
            assert(all_digits(s@.take(i + 1))) by {
                assert(forall|k: int|
                    0 <= k < i + 1 ==> s@.take(i + 1)[k] == s@.take(i as int).push(
                        s@[i as int],
                    )[k]);
                assert(s@.take(i + 1) =~= s@.take(i as int).push(s@[i as int]));
            }
        }
        i = i + 1;
    }
    assert(s@.take(n as int) =~= s@);
    Some(acc)
}

/// Convert one token according to the field's conversion.
pub fn convert(k: ConvKind, tok: &String) -> (r: Result<ArgValue, ConvertError>)
    ensures
        match r {
            Ok(av) => conv_ok(k, tok@) && arg_is(&av, k, tok@),
            Err(e) => !conv_ok(k, tok@) && (e matches ConvertError::BadNumber(b) && b@ == tok@),
        },
{
    match k {
        ConvKind::Text => Ok(ArgValue::Text(tok.clone())),
        ConvKind::Nat => match parse_nat(tok.as_str()) {
            Some(v) => Ok(ArgValue::Nat(v)),
            None => Err(ConvertError::BadNumber(tok.clone())),
        },
    }
}

// ---------------------------------------------------------------------
// Identifier resolution
// ---------------------------------------------------------------------

/// The trie keys of a set.
pub open spec fn set_keys(s: &CommandSet) -> Seq<Seq<char>> {
    keys_of(s.trie.entries@)
}

/// The candidate entries of an input token: the aggregate of its
/// lowercased form.
pub open spec fn cands_of(s: &CommandSet, t: Seq<char>) -> Seq<int> {
    agg_ids(set_keys(s), lower_of(t))
}

/// Whether the token resolves to exactly one command.
pub open spec fn id_ok(s: &CommandSet, t: Seq<char>) -> bool {
    &&& cands_of(s, t).len() > 0
    &&& forall|x: int|
        0 <= x < cands_of(s, t).len() ==> s.trie.entries@[#[trigger] cands_of(s, t)[x]].1
            == s.trie.entries@[cands_of(s, t)[0]].1
}

/// The command index the token resolves to.
pub open spec fn id_of(s: &CommandSet, t: Seq<char>) -> int {
    s.trie.entries@[cands_of(s, t)[0]].1 as int
}

/// Whether `e` is the identifier error for token `t`: no match with
/// all valid names, or ambiguity with the candidate keys.
pub open spec fn id_err_is(s: &CommandSet, t: Seq<char>, e: &IdParseError) -> bool {
    if cands_of(s, t).len() == 0 {
        e matches IdParseError::NoMatch(g, names) && g@ == t && names.deep_view()
            == crate::command::flat_ids(s.commands@)
    } else {
        e matches IdParseError::Ambiguous(c, g) && g@ == t && c.deep_view() == cand_names(
            set_keys(s),
            cands_of(s, t),
        )
    }
}

/// Every identifier of every command, in declaration order.
#[verifier::loop_isolation(false)]
pub fn all_names(s: &CommandSet) -> (r: Vec<String>)
    ensures
        r.deep_view() == crate::command::flat_ids(s.commands@),
{
    let mut out: Vec<String> = Vec::new();
    let mut j: usize = 0;
    proof {
        assert(s.commands@.take(0) =~= Seq::<CommandSpec>::empty());
        assert(out.deep_view() =~= crate::command::flat_ids(s.commands@.take(0)));
    }
    while j < s.commands.len()
        invariant
            j <= s.commands@.len(),
            out.deep_view() == crate::command::flat_ids(s.commands@.take(j as int)),
        decreases s.commands@.len() - j,
    {
        let ids = &s.commands[j].docs.usage.ids;
        let ghost base = out.deep_view();
        let mut x: usize = 0;
        while x < ids.len()
            invariant
                x <= ids@.len(),
                ids@ == s.commands@[j as int].docs.usage.ids@,
                out.deep_view() == base + ids.deep_view().take(x as int),
            decreases ids@.len() - x,
        {
            let ghost prev = out.deep_view();
            out.push(ids[x].clone());
            proof {
                assert(out.deep_view() =~= prev.push(ids@[x as int]@));
                assert(ids.deep_view().take(x + 1) =~= ids.deep_view().take(x as int).push(
                    ids@[x as int]@,
                ));
                assert(out.deep_view() =~= base + ids.deep_view().take(x + 1));
            }
            x = x + 1;
        }
        proof {
            assert(ids.deep_view().take(ids@.len() as int) =~= ids.deep_view());
            crate::command::lemma_flat_ids_take(s.commands@, j as int);
            assert(out.deep_view() =~= crate::command::flat_ids(s.commands@.take(j + 1)));
        }
        j = j + 1;
    }
    proof {
        assert(s.commands@.take(s.commands@.len() as int) =~= s.commands@);
    }
    out
}

/// Resolve one token against the set's identifiers: lowercase it and
/// look it up in the trie.
pub fn resolve_id(s: &CommandSet, tok: &String) -> (r: Result<usize, IdParseError>)
    requires
        set_wf(s),
    ensures
        match r {
            Ok(j) => id_ok(s, tok@) && j as int == id_of(s, tok@) && j < s.commands@.len(),
            Err(e) => !id_ok(s, tok@) && id_err_is(s, tok@, &e),
        },
{
    let low = lowercase(tok.as_str());
    match s.trie.lookup(low.as_str()) {
        TrieLookup::Found(p) => {
            proof {
                crate::trie::lemma_agg_bounds(set_keys(s), lower_of(tok@));
            }
            Ok(p)
        },
        TrieLookup::NoMatch => Err(IdParseError::NoMatch(tok.clone(), all_names(s))),
        TrieLookup::Ambiguous(c) => Err(IdParseError::Ambiguous(c, tok.clone())),
    }
}


// ---------------------------------------------------------------------
// The parse relations
// ---------------------------------------------------------------------

/// The usage model of a command.
pub open spec fn ufof(c: &CommandSpec) -> UsageForm {
    uform_of(&c.docs.usage)
}

/// The canonical display name of a command: its first identifier.
pub open spec fn canon(c: &CommandSpec) -> Seq<char> {
    c.docs.usage.ids@[0]@
}

/// The number of one-token (non-rest) fields.
pub open spec fn nonrest_n(c: &CommandSpec) -> int {
    (ufof(c).required.len() + ufof(c).optional.len()) as int
}

/// How many one-token fields actually receive a token.
pub open spec fn avail_n(c: &CommandSpec, ts: Seq<Seq<char>>) -> int {
    if ts.len() < nonrest_n(c) {
        ts.len() as int
    } else {
        nonrest_n(c)
    }
}

/// The recursion depth a command contributes.
pub open spec fn cmd_depth(c: &CommandSpec) -> nat {
    match c.sub {
        Some(sb) => (sb.depth@ + 1) as nat,
        None => 0nat,
    }
}

/// The first one-token field in `[k, upto)` whose token does not
/// convert.
pub open spec fn first_bad(c: &CommandSpec, ts: Seq<Seq<char>>, k: int, upto: int) -> Option<int>
    decreases upto - k,
{
    if 0 <= k && k < upto && k < c.fields@.len() && k < ts.len() {
        if !conv_ok(c.fields@[k].conv, ts[k]) {
            Some(k)
        } else {
            first_bad(c, ts, k + 1, upto)
        }
    } else {
        None
    }
}

/// The first remaining token (from `k`) that does not convert.
pub open spec fn first_nonconv(conv: ConvKind, rem: Seq<Seq<char>>, k: int) -> Option<int>
    decreases rem.len() - k,
{
    if 0 <= k && k < rem.len() {
        if !conv_ok(conv, rem[k]) {
            Some(k)
        } else {
            first_nonconv(conv, rem, k + 1)
        }
    } else {
        None
    }
}

/// Whether parsing the tokens after the identifier succeeds for this
/// command.
pub open spec fn cmd_ok(c: &CommandSpec, ts: Seq<Seq<char>>) -> bool
    decreases cmd_depth(c), 1int, 0int,
{
    let f = ufof(c);
    let r = f.required.len() as int;
    let m = nonrest_n(c);
    let avail = avail_n(c, ts);
    let rem = ts.skip(avail);
    &&& first_bad(c, ts, 0, avail) is None
    &&& ts.len() >= r
    &&& match f.rest {
        RestForm::NoRest => ts.len() <= m,
        _ => {
            if c.opts.subcommand {
                c.sub matches Some(sb) && sb.depth@ < cmd_depth(c) && set_ok(&*sb, rem)
            } else if c.fields@.len() > m && c.fields@[m].opts.path {
                c.sub matches Some(sb) && sb.depth@ < cmd_depth(c) && (if f.rest is ReqRest {
                    path_ok(&*sb, rem)
                } else {
                    rem.len() == 0 || path_ok(&*sb, rem)
                })
            } else {
                let conv = if c.fields@.len() > m {
                    c.fields@[m].conv
                } else {
                    ConvKind::Text
                };
                &&& (f.rest is ReqRest ==> rem.len() > 0)
                &&& first_nonconv(conv, rem, 0) is None
            }
        },
    }
}

/// Whether parsing the token stream succeeds for this command set.
pub open spec fn set_ok(s: &CommandSet, ts: Seq<Seq<char>>) -> bool
    decreases s.depth@, 2int, 0int,
{
    &&& ts.len() > 0
    &&& id_ok(s, ts[0])
    &&& 0 <= id_of(s, ts[0]) < s.commands@.len()
    &&& cmd_depth(&s.commands@[id_of(s, ts[0])]) <= s.depth@
    &&& cmd_ok(&s.commands@[id_of(s, ts[0])], ts.skip(1))
}

/// Whether the remaining tokens form a path in this set.
pub open spec fn path_ok(s: &CommandSet, ts: Seq<Seq<char>>) -> bool
    decreases s.depth@, 2int, 1int,
{
    &&& ts.len() > 0
    &&& id_ok(s, ts[0])
    &&& 0 <= id_of(s, ts[0]) < s.commands@.len()
    &&& {
        let c = &s.commands@[id_of(s, ts[0])];
        if c.opts.subcommand {
            c.sub matches Some(sb) && sb.depth@ < s.depth@ && (ts.skip(1).len() == 0 || path_ok(
                &*sb,
                ts.skip(1),
            ))
        } else {
            ts.len() == 1
        }
    }
}

/// Whether `v` is the value this command yields for the tokens after
/// the identifier, under command index `j`.
pub open spec fn cmd_val(c: &CommandSpec, j: int, ts: Seq<Seq<char>>, v: &CommandValue) -> bool
    decreases cmd_depth(c), 1int, 0int,
{
    let f = ufof(c);
    let r = f.required.len() as int;
    let m = nonrest_n(c);
    let avail = avail_n(c, ts);
    let rem = ts.skip(avail);
    &&& v.id == j
    &&& v.fields@.len() == c.fields@.len()
    &&& forall|i: int|
        0 <= i < r && i < ts.len() ==> ((#[trigger] v.fields@[i]) matches FieldValue::One(av)
            && arg_is(&av, c.fields@[i].conv, ts[i]))
    &&& forall|i: int|
        r <= i < m ==> (if i < ts.len() {
            (#[trigger] v.fields@[i]) matches FieldValue::One(av) && arg_is(
                &av,
                c.fields@[i].conv,
                ts[i],
            )
        } else {
            v.fields@[i] is Missing
        })
    &&& match f.rest {
        RestForm::NoRest => true,
        _ => {
            if c.opts.subcommand {
                c.sub matches Some(sb) && sb.depth@ < cmd_depth(c) && (0 <= m
                    < v.fields@.len() && (v.fields@[m] matches FieldValue::Sub(bx) && set_val(
                    &*sb,
                    rem,
                    &*bx,
                )))
            } else if c.fields@.len() > m && c.fields@[m].opts.path {
                c.sub matches Some(sb) && sb.depth@ < cmd_depth(c) && 0 <= m < v.fields@.len()
                    && (if f.rest is ReqRest || rem.len() > 0 {
                    v.fields@[m] matches FieldValue::PathVal(op) && (op matches Some(p)
                        && path_val(&*sb, rem, &p))
                } else {
                    v.fields@[m] matches FieldValue::PathVal(op) && op is None
                })
            } else {
                let conv = if c.fields@.len() > m {
                    c.fields@[m].conv
                } else {
                    ConvKind::Text
                };
                0 <= m < v.fields@.len() && (v.fields@[m] matches FieldValue::Many(vs)
                    && vs@.len() == rem.len() && forall|x: int|
                    0 <= x < rem.len() ==> arg_is(&#[trigger] vs@[x], conv, rem[x]))
            }
        },
    }
}

/// Whether `v` is the value the set yields for the token stream.
pub open spec fn set_val(s: &CommandSet, ts: Seq<Seq<char>>, v: &CommandValue) -> bool
    decreases s.depth@, 2int, 0int,
{
    &&& ts.len() > 0
    &&& 0 <= id_of(s, ts[0]) < s.commands@.len()
    &&& cmd_depth(&s.commands@[id_of(s, ts[0])]) <= s.depth@
    &&& cmd_val(&s.commands@[id_of(s, ts[0])], id_of(s, ts[0]), ts.skip(1), v)
}

/// Whether `p` is the path the set yields for the remaining tokens.
pub open spec fn path_val(s: &CommandSet, ts: Seq<Seq<char>>, p: &CommandPath) -> bool
    decreases s.depth@, 2int, 1int,
{
    &&& ts.len() > 0
    &&& 0 <= id_of(s, ts[0]) < s.commands@.len()
    &&& p.head as int == id_of(s, ts[0])
    &&& {
        let c = &s.commands@[id_of(s, ts[0])];
        if c.opts.subcommand {
            c.sub matches Some(sb) && sb.depth@ < s.depth@ && (if ts.skip(1).len() == 0 {
                p.sub is None
            } else {
                p.sub matches Some(bp) && path_val(&*sb, ts.skip(1), &*bp)
            })
        } else {
            p.sub is None
        }
    }
}

/// Whether `e` is the error this command reports for the tokens after
/// the identifier.
pub open spec fn cmd_err(c: &CommandSpec, ts: Seq<Seq<char>>, e: &CommandParseError) -> bool
    decreases cmd_depth(c), 1int, 0int,
{
    let f = ufof(c);
    let r = f.required.len() as int;
    let m = nonrest_n(c);
    let avail = avail_n(c, ts);
    let rem = ts.skip(avail);
    let cn = canon(c);
    if first_bad(c, ts, 0, avail) is Some {
        let i = first_bad(c, ts, 0, avail)->Some_0;
        e matches CommandParseError::BadConvert(an, ce) && an.cmd@ == cn && an.arg@
            == c.fields@[i].name@ && (ce matches ConvertError::BadNumber(b) && b@ == ts[i])
    } else if ts.len() < r {
        e matches CommandParseError::MissingRequired(an) && an.cmd@ == cn && an.arg@
            == c.fields@[ts.len() as int].name@
    } else {
        match f.rest {
            RestForm::NoRest => ts.len() > m && (e matches CommandParseError::Trailing(cns, tok)
                && cns@ == cn && tok@ == ts[m]),
            _ => {
                if c.opts.subcommand {
                    c.sub matches Some(sb) && sb.depth@ < cmd_depth(c) && !set_ok(&*sb, rem) && (
                    e matches CommandParseError::Subcommand(cns, be) && cns@ == cn && set_err(
                        &*sb,
                        rem,
                        &*be,
                    ))
                } else if c.fields@.len() > m && c.fields@[m].opts.path {
                    c.sub matches Some(sb) && sb.depth@ < cmd_depth(c) && (f.rest is ReqRest
                        || rem.len() > 0) && !path_ok(&*sb, rem) && (e matches
                    CommandParseError::BadConvert(an, ce) && an.cmd@ == cn && an.arg@
                        == c.fields@[m].name@ && (ce matches ConvertError::BadPath(pe)
                        && path_err(&*sb, rem, &pe)))
                } else {
                    let conv = if c.fields@.len() > m {
                        c.fields@[m].conv
                    } else {
                        ConvKind::Text
                    };
                    if f.rest is ReqRest && rem.len() == 0 {
                        e matches CommandParseError::MissingRequired(an) && an.cmd@ == cn
                            && an.arg@ == c.fields@[m].name@
                    } else {
                        first_nonconv(conv, rem, 0) is Some && (e matches
                        CommandParseError::BadConvert(an, ce) && an.cmd@ == cn && an.arg@
                            == c.fields@[m].name@ && (ce matches ConvertError::BadNumber(b) && b@
                            == rem[first_nonconv(conv, rem, 0)->Some_0]))
                    }
                }
            },
        }
    }
}

/// Whether `e` is the error the set reports for the token stream.
pub open spec fn set_err(s: &CommandSet, ts: Seq<Seq<char>>, e: &CommandParseError) -> bool
    decreases s.depth@, 2int, 0int,
{
    if ts.len() == 0 {
        e is NoInput
    } else if !id_ok(s, ts[0]) {
        e matches CommandParseError::BadId(ide) && id_err_is(s, ts[0], &ide)
    } else {
        &&& 0 <= id_of(s, ts[0]) < s.commands@.len()
        &&& cmd_depth(&s.commands@[id_of(s, ts[0])]) <= s.depth@
        &&& cmd_err(&s.commands@[id_of(s, ts[0])], ts.skip(1), e)
    }
}

/// Whether `pe` is the path error the set reports.
pub open spec fn path_err(s: &CommandSet, ts: Seq<Seq<char>>, pe: &PathParseError) -> bool
    decreases s.depth@, 2int, 1int,
{
    if ts.len() == 0 {
        pe matches PathParseError::Incomplete(names) && names.deep_view()
            == crate::command::flat_ids(s.commands@)
    } else if !id_ok(s, ts[0]) {
        pe matches PathParseError::BadId(ide) && id_err_is(s, ts[0], &ide)
    } else {
        &&& 0 <= id_of(s, ts[0]) < s.commands@.len()
        &&& {
            let c = &s.commands@[id_of(s, ts[0])];
            if c.opts.subcommand {
                c.sub matches Some(sb) && sb.depth@ < s.depth@ && ts.skip(1).len() > 0
                    && !path_ok(&*sb, ts.skip(1)) && path_err(&*sb, ts.skip(1), pe)
            } else {
                ts.len() > 1 && (pe matches PathParseError::Trailing(x) && x@ == ts[1])
            }
        }
    }
}


// ---------------------------------------------------------------------
// Executable parsing
// ---------------------------------------------------------------------

/// Parse the tokens from `pos` on as a command path in `s`.
#[verifier::loop_isolation(false)]
#[verifier::rlimit(100)]
pub fn parse_path(s: &CommandSet, tokens: &Vec<String>, pos: usize) -> (r: Result<
    CommandPath,
    PathParseError,
>)
    requires
        set_wf(s),
        pos <= tokens@.len(),
    ensures
        ({
            let tv = tokens.deep_view().skip(pos as int);
            match r {
                Ok(p) => path_ok(s, tv) && path_val(s, tv, &p),
                Err(pe) => !path_ok(s, tv) && path_err(s, tv, &pe),
            }
        }),
    decreases s.depth@,
{
    let ghost tv = tokens.deep_view().skip(pos as int);
    if pos >= tokens.len() {
        let names = all_names(s);
        return Err(PathParseError::Incomplete(names));
    }
    assert(tv[0] == tokens@[pos as int]@);
    let j = match resolve_id(s, &tokens[pos]) {
        Ok(j) => j,
        Err(ide) => {
            return Err(PathParseError::BadId(ide));
        },
    };
    proof {
        lemma_cmds_wf_index(s.commands@, s.depth@, j as int);
        assert(tv.skip(1) =~= tokens.deep_view().skip(pos + 1));
    }
    let c = &s.commands[j];
    if c.opts.subcommand {
        match &c.sub {
            Some(sb) => {
                if pos + 1 >= tokens.len() {
                    assert(tv.skip(1).len() == 0);
                    Ok(CommandPath { head: j, sub: None })
                } else {
                    match parse_path(&**sb, tokens, pos + 1) {
                        Ok(p) => Ok(CommandPath { head: j, sub: Some(Box::new(p)) }),
                        Err(pe) => Err(pe),
                    }
                }
            },
            None => {
                // Unreachable: a subcommand always carries its set.
                assert(false);
                Err(PathParseError::Incomplete(Vec::new()))
            },
        }
    } else {
        if pos + 1 < tokens.len() {
            assert(tv[1] == tokens@[pos + 1]@);
            Err(PathParseError::Trailing(tokens[pos + 1].clone()))
        } else {
            assert(tv.len() == 1);
            Ok(CommandPath { head: j, sub: None })
        }
    }
}

/// Parse the tokens from `pos` on as a command of `s`.
#[verifier::loop_isolation(false)]
#[verifier::rlimit(100)]
fn parse_from(s: &CommandSet, tokens: &Vec<String>, pos: usize) -> (r: Result<
    CommandValue,
    CommandParseError,
>)
    requires
        set_wf(s),
        pos <= tokens@.len(),
    ensures
        ({
            let tv = tokens.deep_view().skip(pos as int);
            match r {
                Ok(v) => set_ok(s, tv) && set_val(s, tv, &v),
                Err(e) => !set_ok(s, tv) && set_err(s, tv, &e),
            }
        }),
    decreases s.depth@,
{
    let ghost tv = tokens.deep_view().skip(pos as int);
    if pos >= tokens.len() {
        return Err(CommandParseError::NoInput);
    }
    assert(tv[0] == tokens@[pos as int]@);
    let j = match resolve_id(s, &tokens[pos]) {
        Ok(j) => j,
        Err(ide) => {
            return Err(CommandParseError::BadId(ide));
        },
    };
    proof {
        lemma_cmds_wf_index(s.commands@, s.depth@, j as int);
    }
    let c = &s.commands[j];
    let ghost ts = tv.skip(1);
    proof {
        assert(ts =~= tokens.deep_view().skip(pos + 1));
        assert(forall|i: int|
            0 <= i < ts.len() ==> #[trigger] ts[i] == tokens@[pos + 1 + i]@);
    }
    let ghost f = ufof(c);
    let canonical = c.docs.usage.ids[0].clone();
    assert(canonical@ == canon(c));

    let nreq = c.docs.usage.required.len();
    let has_rest = match &c.docs.usage.rest {
        crate::usage::RestArg::NoRest => false,
        _ => true,
    };
    let nfields = c.fields.len();
    let m = if has_rest {
        nfields - 1
    } else {
        nfields
    };
    assert(m as int == nonrest_n(c));
    assert(nreq as int == f.required.len());
    let ghost avail = avail_n(c, ts);

    let mut values: Vec<FieldValue> = Vec::new();
    let mut i: usize = 0;
    while i < m
        invariant
            i <= m,
            m as int == nonrest_n(c),
            m <= c.fields@.len(),
            nreq as int == f.required.len(),
            f == ufof(c),
            pos < tokens@.len(),
            ts == tokens.deep_view().skip(pos + 1),
            avail == avail_n(c, ts),
            values@.len() == i,
            (i as int) <= avail || (i > 0 && ts.len() < i),
            first_bad(c, ts, 0, avail) == first_bad(c, ts, i as int, avail),
            forall|t: int|
                0 <= t < i && t < ts.len() ==> ((#[trigger] values@[t]) matches FieldValue::One(
                    av,
                ) && arg_is(&av, c.fields@[t].conv, ts[t])),
            forall|t: int| 0 <= t < i && t >= ts.len() ==> (#[trigger] values@[t]) is Missing,
            (i as int) > ts.len() ==> ts.len() >= nreq,
        decreases m - i,
    {
        if i < tokens.len() - (pos + 1) {
            assert(i < ts.len());
            assert(ts[i as int] == tokens@[pos + 1 + i]@);
            match convert(c.fields[i].conv, &tokens[pos + 1 + i]) {
                Ok(av) => {
                    values.push(FieldValue::One(av));
                    proof {
                        assert(first_bad(c, ts, i as int, avail) == first_bad(
                            c,
                            ts,
                            i + 1,
                            avail,
                        ));
                    }
                },
                Err(ce) => {
                    proof {
                        assert((i as int) < avail);
                        assert(first_bad(c, ts, i as int, avail) == Some(i as int));
                    }
                    return Err(
                        CommandParseError::BadConvert(
                            ArgumentName { cmd: canonical, arg: c.fields[i].name.clone() },
                            ce,
                        ),
                    );
                },
            }
        } else {
            assert(i >= ts.len());
            if i < nreq {
                assert(ts.len() < f.required.len());
                assert(ts.len() == i);
                return Err(
                    CommandParseError::MissingRequired(
                        ArgumentName { cmd: canonical, arg: c.fields[i].name.clone() },
                    ),
                );
            }
            values.push(FieldValue::Missing);
            proof {
                assert(first_bad(c, ts, i as int, avail) == first_bad(c, ts, i + 1, avail));
            }
        }
        i = i + 1;
    }
    assert(first_bad(c, ts, 0, avail) is None);
    assert(ts.len() >= nreq);

    let rem_start = if m > tokens.len() - (pos + 1) {
        tokens.len()
    } else {
        pos + 1 + m
    };
    let ghost rem = ts.skip(avail);
    proof {
        assert(rem =~= tokens.deep_view().skip(rem_start as int));
        assert(forall|x: int|
            0 <= x < rem.len() ==> #[trigger] rem[x] == tokens@[rem_start + x]@);
    }

    if !has_rest {
        if m < tokens.len() - (pos + 1) {
            assert(ts.len() > m);
            assert(ts[m as int] == tokens@[pos + 1 + m]@);
            return Err(CommandParseError::Trailing(canonical, tokens[pos + 1 + m].clone()));
        }
        assert(ts.len() <= m);
        let v = CommandValue { id: j, fields: values };
        assert(cmd_ok(c, ts));
        assert(cmd_val(c, j as int, ts, &v));
        return Ok(v);
    }

    // The trailing rest field.
    assert(0 <= m < c.fields@.len());
    if c.opts.subcommand {
        match &c.sub {
            Some(sb) => {
                match parse_from(&**sb, tokens, rem_start) {
                    Ok(cv) => {
                        values.push(FieldValue::Sub(Box::new(cv)));
                        let v = CommandValue { id: j, fields: values };
                        assert(cmd_ok(c, ts));
                        assert(cmd_val(c, j as int, ts, &v));
                        Ok(v)
                    },
                    Err(e) => Err(CommandParseError::Subcommand(canonical, Box::new(e))),
                }
            },
            None => {
                // Unreachable: a subcommand always carries its set.
                assert(false);
                Err(CommandParseError::NoInput)
            },
        }
    } else if c.fields[m].opts.path {
        match &c.sub {
            Some(sb) => {
                let required_rest = match &c.docs.usage.rest {
                    crate::usage::RestArg::Required(_) => true,
                    _ => false,
                };
                assert(required_rest == (f.rest is ReqRest));
                if !required_rest && rem_start >= tokens.len() {
                    assert(rem.len() == 0);
                    values.push(FieldValue::PathVal(None));
                    let v = CommandValue { id: j, fields: values };
                    assert(cmd_ok(c, ts));
                    assert(cmd_val(c, j as int, ts, &v));
                    Ok(v)
                } else {
                    match parse_path(&**sb, tokens, rem_start) {
                        Ok(p) => {
                            values.push(FieldValue::PathVal(Some(p)));
                            let v = CommandValue { id: j, fields: values };
                            assert(cmd_ok(c, ts));
                            assert(cmd_val(c, j as int, ts, &v));
                            Ok(v)
                        },
                        Err(pe) => Err(
                            CommandParseError::BadConvert(
                                ArgumentName { cmd: canonical, arg: c.fields[m].name.clone() },
                                ConvertError::BadPath(pe),
                            ),
                        ),
                    }
                }
            },
            None => {
                // Unreachable: a path field always carries its set.
                assert(false);
                Err(CommandParseError::NoInput)
            },
        }
    } else {
        let required_rest = match &c.docs.usage.rest {
            crate::usage::RestArg::Required(_) => true,
            _ => false,
        };
        if required_rest && rem_start >= tokens.len() {
            assert(rem.len() == 0);
            return Err(
                CommandParseError::MissingRequired(
                    ArgumentName { cmd: canonical, arg: c.fields[m].name.clone() },
                ),
            );
        }
        let conv = c.fields[m].conv;
        let mut vs: Vec<ArgValue> = Vec::new();
        let mut x = rem_start;
        while x < tokens.len()
            invariant
                rem_start <= x <= tokens@.len(),
                rem == tokens.deep_view().skip(rem_start as int),
                conv == c.fields@[m as int].conv,
                m < c.fields@.len(),
                canonical@ == canon(c),
                vs@.len() == x - rem_start,
                first_nonconv(conv, rem, 0) == first_nonconv(conv, rem, x - rem_start),
                forall|y: int|
                    0 <= y < vs@.len() ==> arg_is(&#[trigger] vs@[y], conv, rem[y]),
            decreases tokens@.len() - x,
        {
            assert(rem[x - rem_start] == tokens@[x as int]@);
            match convert(conv, &tokens[x]) {
                Ok(av) => {
                    vs.push(av);
                    proof {
                        assert(first_nonconv(conv, rem, x - rem_start) == first_nonconv(
                            conv,
                            rem,
                            x - rem_start + 1,
                        ));
                    }
                },
                Err(ce) => {
                    proof {
                        assert(first_nonconv(conv, rem, x - rem_start) == Some(
                            x - rem_start,
                        ));
                    }
                    return Err(
                        CommandParseError::BadConvert(
                            ArgumentName { cmd: canonical, arg: c.fields[m].name.clone() },
                            ce,
                        ),
                    );
                },
            }
            x = x + 1;
        }
        assert(first_nonconv(conv, rem, 0) is None);
        assert(vs@.len() == rem.len());
        values.push(FieldValue::Many(vs));
        let v = CommandValue { id: j, fields: values };
        assert(cmd_ok(c, ts));
        assert(cmd_val(c, j as int, ts, &v));
        Ok(v)
    }
}

/// Parse a token stream as a command of the set.
///
/// The first token is resolved as an identifier (with abbreviation and
/// ambiguity handling); the remaining tokens are consumed by the
/// resolved command's fields in order.  The result is a fully
/// constructed value or exactly one structured error.
pub fn parse_command(s: &CommandSet, tokens: &Vec<String>) -> (r: Result<
    CommandValue,
    CommandParseError,
>)
    requires
        set_wf(s),
    ensures
        ({
            let tv = tokens.deep_view();
            match r {
                Ok(v) => set_ok(s, tv) && set_val(s, tv, &v),
                Err(e) => !set_ok(s, tv) && set_err(s, tv, &e),
            }
        }),
{
    proof {
        assert(tokens.deep_view().skip(0) =~= tokens.deep_view());
    }
    parse_from(s, tokens, 0)
}


// ---------------------------------------------------------------------
// Help lookup
// ---------------------------------------------------------------------

/// The help topic a path addresses: the root topic for `None`, the
/// addressed command's topic otherwise, recursing into the nested set
/// when the path carries a remainder.
pub open spec fn help_topic_of(s: &CommandSet, topic: Option<&CommandPath>) -> HelpTopic
    decreases s.depth@, 2int, 1int,
{
    match topic {
        None => s.root_topic,
        Some(p) => {
            if 0 <= p.head < s.commands@.len() {
                let c = &s.commands@[p.head as int];
                match p.sub {
                    Some(bp) => match c.sub {
                        Some(sb) => {
                            if sb.depth@ < s.depth@ {
                                help_topic_of(&*sb, Some(&*bp))
                            } else {
                                s.topics@[p.head as int]
                            }
                        },
                        None => s.topics@[p.head as int],
                    },
                    None => s.topics@[p.head as int],
                }
            } else {
                s.root_topic
            }
        },
    }
}

/// Retrieve the help topic for a path, or the root topic for `None`.
pub fn help<'a>(s: &'a CommandSet, topic: Option<&CommandPath>) -> (r: &'a HelpTopic)
    requires
        set_wf(s),
    ensures
        *r == help_topic_of(s, topic),
    decreases s.depth@,
{
    match topic {
        None => &s.root_topic,
        Some(p) => {
            if p.head < s.commands.len() {
                proof {
                    lemma_cmds_wf_index(s.commands@, s.depth@, p.head as int);
                }
                match &p.sub {
                    Some(bp) => match &s.commands[p.head].sub {
                        Some(sb) => help(&**sb, Some(&**bp)),
                        None => &s.topics[p.head],
                    },
                    None => &s.topics[p.head],
                }
            } else {
                &s.root_topic
            }
        },
    }
}


} // verus!
