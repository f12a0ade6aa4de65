//! The validated command model: field modes derived from the usage
//! line, per-command options, and the command set with its identifier
//! trie and help topics.  All validation happens here, once, when the
//! set is built; the parsing engine then only reads this data.
use vstd::prelude::*;

use crate::docs::{docs_is_form, docs_result, CommandDocs, CommandSetDocs};
use crate::errors::{SpecError, SpecErrorForm, spec_err_is};
use crate::help::{desc_record, desc_record_is, usage_record, usage_record_is, HelpTopic};
use crate::lower::{lower_of, lowercase};
use crate::trie::{key_dup_from, keys_of, Trie, trie_wf};
use crate::usage::{RestArg, RestForm, UsageForm, uform_of};

verus! {

/// Options of a whole command.
#[derive(Debug, Clone, Copy, PartialEq, Eq)]
pub struct CommandOpts {
    /// Whether the command delegates its rest field to a nested
    /// command set.
    pub subcommand: bool,
}

impl CommandOpts {
    /// The options a command has when none are given.
    pub fn no_opts() -> (r: CommandOpts)
        ensures
            !r.subcommand,
    {
        CommandOpts { subcommand: false }
    }
}

/// Options of one field.
#[derive(Debug, Clone, Copy, PartialEq, Eq)]
pub struct FieldOpts {
    /// Whether the field consumes the remaining tokens as a command
    /// path rather than as individual values.
    pub path: bool,
}

impl FieldOpts {
    /// The options a field has when none are given.
    pub fn no_opts() -> (r: FieldOpts)
        ensures
            !r.path,
    {
        FieldOpts { path: false }
    }
}

/// How a field consumes tokens.
#[derive(Debug, Clone, Copy, PartialEq, Eq)]
pub enum FieldMode {
    /// Exactly one token, which must be present.
    Required,
    /// One token when available.
    Optional,
    /// All remaining tokens; at least one must be present.
    RestRequired,
    /// All remaining tokens, possibly none.
    RestOptional,
}

impl FieldMode {
    /// Whether the mode demands at least one token.
    pub fn required(&self) -> (r: bool)
        ensures
            r == (*self is Required || *self is RestRequired),
    {
        match self {
            FieldMode::Required | FieldMode::RestRequired => true,
            _ => false,
        }
    }

    /// Whether the mode consumes all remaining tokens.
    pub fn rest(&self) -> (r: bool)
        ensures
            r == (*self is RestRequired || *self is RestOptional),
    {
        match self {
            FieldMode::RestRequired | FieldMode::RestOptional => true,
            _ => false,
        }
    }
}

/// The conversion a field applies to each of its tokens.
#[derive(Debug, Clone, Copy, PartialEq, Eq)]
pub enum ConvKind {
    /// Keep the token as text; never fails.
    Text,
    /// Parse the token as a decimal unsigned number.
    Nat,
}

/// A field as the caller declares it: its options and value
/// conversion.  Name and mode come from the usage line.
#[derive(Debug, Clone, Copy, PartialEq, Eq)]
pub struct FieldDecl {
    /// The field's options.
    pub opts: FieldOpts,
    /// The field's value conversion.
    pub conv: ConvKind,
}

/// A validated field of a command.
#[derive(Debug, Clone, PartialEq, Eq)]
pub struct FieldSpec {
    /// The argument name from the usage line.
    pub name: String,
    /// The field's options.
    pub opts: FieldOpts,
    /// How the field consumes tokens, from its position in the usage
    /// line.
    pub mode: FieldMode,
    /// The field's value conversion.
    pub conv: ConvKind,
}

/// A validated command: its options, documentation, fields, and — for
/// a subcommand or a path-valued rest field — the nested command set.
pub struct CommandSpec {
    /// The command's options.
    pub opts: CommandOpts,
    /// The command's parsed documentation.
    pub docs: CommandDocs,
    /// The fields, in usage order.
    pub fields: Vec<FieldSpec>,
    /// The nested command set a subcommand delegates to, or the set a
    /// path-valued rest field resolves against.
    pub sub: Option<Box<CommandSet>>,
}

/// A validated set of commands: the commands, the identifier trie over
/// their lowercased identifiers, and the prebuilt help topics.
pub struct CommandSet {
    /// The set's documentation.
    pub docs: CommandSetDocs,
    /// The commands, in declaration order.
    pub commands: Vec<CommandSpec>,
    /// The trie over every lowercased identifier, mapping to the
    /// owning command's index.
    pub trie: Trie,
    /// The root help topic, listing every command's usage.
    pub root_topic: HelpTopic,
    /// One command topic per command, in order.
    pub topics: Vec<HelpTopic>,
    /// Nesting depth, for termination of the recursive definitions.
    pub depth: Ghost<nat>,
}

// ---------------------------------------------------------------------
// Positional field expectations
// ---------------------------------------------------------------------

/// The number of arguments a usage model declares.
pub open spec fn arity_of(f: UsageForm) -> int {
    f.required.len() + f.optional.len() + (match f.rest {
        RestForm::NoRest => 0int,
        _ => 1int,
    })
}

/// The mode of the argument at position `i` of the usage model.
pub open spec fn mode_at(f: UsageForm, i: int) -> FieldMode {
    if i < f.required.len() {
        FieldMode::Required
    } else if i < f.required.len() + f.optional.len() {
        FieldMode::Optional
    } else {
        match f.rest {
            RestForm::ReqRest(_) => FieldMode::RestRequired,
            _ => FieldMode::RestOptional,
        }
    }
}

/// The name of the argument at position `i` of the usage model.
pub open spec fn name_at(f: UsageForm, i: int) -> Seq<char> {
    if i < f.required.len() {
        f.required[i]
    } else if i < f.required.len() + f.optional.len() {
        f.optional[i - f.required.len()]
    } else {
        match f.rest {
            RestForm::OptRest(n) => n,
            RestForm::ReqRest(n) => n,
            RestForm::NoRest => Seq::empty(),
        }
    }
}

/// Whether the fields are exactly what the usage model declares.
pub open spec fn fields_match_usage(fields: Seq<FieldSpec>, f: UsageForm) -> bool {
    &&& fields.len() == arity_of(f)
    &&& forall|i: int|
        0 <= i < fields.len() ==> (#[trigger] fields[i]).mode == mode_at(f, i) && fields[i].name@
            == name_at(f, i)
}

/// Whether some declared field is a path field.
pub open spec fn has_path_decl(decls: Seq<FieldDecl>) -> bool {
    exists|i: int| 0 <= i < decls.len() && (#[trigger] decls[i]).opts.path
}

/// The first field that is a path field but not the rest field.
pub open spec fn first_bad_path(f: UsageForm, decls: Seq<FieldDecl>, k: int) -> Option<int>
    decreases decls.len() - k,
{
    if 0 <= k && k < decls.len() {
        if decls[k].opts.path && !(mode_at(f, k) is RestRequired || mode_at(f, k)
            is RestOptional) {
            Some(k)
        } else {
            first_bad_path(f, decls, k + 1)
        }
    } else {
        None
    }
}

/// The validation a command's declaration must pass, given its parsed
/// usage model: the field count must match the declared arity; a
/// subcommand must be a single non-path rest field with a nested set;
/// path fields must be rest fields; and a nested set is present
/// exactly when the command needs one.
pub open spec fn cmd_build_check(
    opts: CommandOpts,
    f: UsageForm,
    decls: Seq<FieldDecl>,
    has_sub: bool,
) -> Option<SpecErrorForm> {
    if decls.len() != arity_of(f) {
        Some(SpecErrorForm::FieldCountMismatchF)
    } else if opts.subcommand && !(decls.len() == 1 && arity_of(f) == 1 && !(f.rest is NoRest)
        && !decls[0].opts.path && has_sub) {
        Some(SpecErrorForm::InvalidSubcommandF)
    } else {
        match first_bad_path(f, decls, 0) {
            Some(i) => Some(SpecErrorForm::InvalidPathFieldF(name_at(f, i))),
            None => {
                if !opts.subcommand && has_sub != has_path_decl(decls) {
                    Some(SpecErrorForm::InvalidSubcommandF)
                } else {
                    None
                }
            },
        }
    }
}

/// Whether the built fields carry the usage names and modes together
/// with the declared options and conversions.
pub open spec fn fields_built(fields: Seq<FieldSpec>, f: UsageForm, decls: Seq<FieldDecl>) -> bool {
    &&& fields.len() == decls.len()
    &&& forall|i: int|
        0 <= i < fields.len() ==> {
            let fs = #[trigger] fields[i];
            fs.name@ == name_at(f, i) && fs.mode == mode_at(f, i) && fs.opts == decls[i].opts
                && fs.conv == decls[i].conv
        }
}

// ---------------------------------------------------------------------
// Well-formedness
// ---------------------------------------------------------------------

/// The identifier entries a command contributes to the trie: each of
/// its identifiers, lowercased, mapped to the command's index.
pub open spec fn cmd_entries(c: CommandSpec, j: int) -> Seq<(Seq<char>, int)> {
    Seq::new(c.docs.usage.ids@.len(), |x: int| (lower_of(c.docs.usage.ids@[x]@), j))
}

/// All commands' identifier entries, in declaration order.
pub open spec fn id_entries(cmds: Seq<CommandSpec>) -> Seq<(Seq<char>, int)>
    decreases cmds.len(),
{
    if cmds.len() == 0 {
        Seq::empty()
    } else {
        id_entries(cmds.drop_last()) + cmd_entries(cmds.last(), cmds.len() - 1)
    }
}

/// All commands' identifiers as declared, in order.
pub open spec fn flat_ids(cmds: Seq<CommandSpec>) -> Seq<Seq<char>>
    decreases cmds.len(),
{
    if cmds.len() == 0 {
        Seq::empty()
    } else {
        flat_ids(cmds.drop_last()) + cmds.last().docs.usage.ids.deep_view()
    }
}

/// The non-recursive shape clauses of one command.
pub open spec fn cmd_shape(c: CommandSpec) -> bool {
    let f = uform_of(&c.docs.usage);
    &&& fields_match_usage(c.fields@, f)
    &&& c.docs.usage.ids@.len() >= 1
    &&& (c.opts.subcommand ==> c.fields@.len() == 1 && !(f.rest is NoRest) && !c.fields@[0].opts.path)
    &&& forall|i: int|
        0 <= i < c.fields@.len() && (#[trigger] c.fields@[i]).opts.path ==> c.fields@[i].mode
            is RestRequired || c.fields@[i].mode is RestOptional
    &&& (c.sub is Some <==> (c.opts.subcommand || exists|i: int|
        0 <= i < c.fields@.len() && (#[trigger] c.fields@[i]).opts.path))
}

/// One command's full well-formedness, below depth `d`.
pub open spec fn cmd_wf(c: CommandSpec, d: nat) -> bool
    decreases d, 0int, 0int,
{
    &&& cmd_shape(c)
    &&& match c.sub {
        Some(sb) => sb.depth@ < d && set_wf(&*sb),
        None => true,
    }
}

/// All commands' well-formedness, below depth `d`.
pub open spec fn cmds_wf(cmds: Seq<CommandSpec>, d: nat) -> bool
    decreases d, 0int, cmds.len() + 1,
{
    cmds.len() == 0 || (cmds_wf(cmds.drop_last(), d) && cmd_wf(cmds.last(), d))
}

/// The non-recursive clauses of a command set: the trie is
/// well-formed and holds exactly the lowercased identifiers, and the
/// help topics mirror the commands.
pub open spec fn set_wf_shallow(s: &CommandSet) -> bool {
    let e = id_entries(s.commands@);
    &&& trie_wf(&s.trie)
    &&& s.trie.entries@.len() == e.len()
    &&& forall|x: int|
        0 <= x < e.len() ==> (#[trigger] s.trie.entries@[x]).0@ == e[x].0
            && s.trie.entries@[x].1 as int == e[x].1 && 0 <= e[x].1 < s.commands@.len()
    &&& s.topics@.len() == s.commands@.len()
    &&& forall|j: int|
        0 <= j < s.commands@.len() ==> ((#[trigger] s.topics@[j]) matches HelpTopic::Command(
            hu,
            hd,
        ) && usage_record_is(&hu, &s.commands@[j].docs.usage) && desc_record_is(
            &hd,
            &s.commands@[j].docs,
        ))
    &&& s.root_topic matches HelpTopic::CommandSet(sum, us) && (match (sum, &s.docs.summary) {
        (Some(a), Some(b)) => a@ == b@,
        (None, None) => true,
        _ => false,
    }) && us@.len() == s.commands@.len() && forall|j: int|
        0 <= j < s.commands@.len() ==> usage_record_is(
            &#[trigger] us@[j],
            &s.commands@[j].docs.usage,
        )
}

/// A command set's full well-formedness.
pub open spec fn set_wf(s: &CommandSet) -> bool
    decreases s.depth@, 1int, 0int,
{
    &&& set_wf_shallow(s)
    &&& cmds_wf(s.commands@, s.depth@)
}

/// Pointwise well-formedness of every command, from the list form.
pub proof fn lemma_cmds_wf_index(cmds: Seq<CommandSpec>, d: nat, j: int)
    requires
        cmds_wf(cmds, d),
        0 <= j < cmds.len(),
    ensures
        cmd_wf(cmds[j], d),
    decreases cmds.len(),
{
    if j == cmds.len() - 1 {
        assert(cmds.last() == cmds[j]);
    } else {
        assert(cmds.drop_last()[j] == cmds[j]);
        lemma_cmds_wf_index(cmds.drop_last(), d, j);
    }
}

/// The list form of pointwise well-formedness.
pub proof fn lemma_cmds_wf_build(cmds: Seq<CommandSpec>, d: nat)
    requires
        forall|j: int| 0 <= j < cmds.len() ==> cmd_wf(#[trigger] cmds[j], d),
    ensures
        cmds_wf(cmds, d),
    decreases cmds.len(),
{
    if cmds.len() > 0 {
        assert(forall|j: int|
            0 <= j < cmds.drop_last().len() ==> #[trigger] cmds.drop_last()[j] == cmds[j]);
        lemma_cmds_wf_build(cmds.drop_last(), d);
    }
}

/// A depth bound strictly above every nested set of the commands.
pub open spec fn subs_bound(cmds: Seq<CommandSpec>) -> nat
    decreases cmds.len(),
{
    if cmds.len() == 0 {
        1nat
    } else {
        let rest = subs_bound(cmds.drop_last());
        let own = match cmds.last().sub {
            Some(sb) => sb.depth@ + 1,
            None => 1nat,
        };
        if own > rest {
            own
        } else {
            rest
        }
    }
}

pub proof fn lemma_subs_bound(cmds: Seq<CommandSpec>, j: int)
    requires
        0 <= j < cmds.len(),
    ensures
        match cmds[j].sub {
            Some(sb) => sb.depth@ < subs_bound(cmds),
            None => true,
        },
    decreases cmds.len(),
{
    if j == cmds.len() - 1 {
        assert(cmds.last() == cmds[j]);
    } else {
        assert(cmds.drop_last()[j] == cmds[j]);
        lemma_subs_bound(cmds.drop_last(), j);
    }
}


/// A command whose shape is validated and whose nested set, if any,
/// is itself well-formed: what [`CommandSpec::new`] hands out.
pub open spec fn cmd_ready(c: CommandSpec) -> bool
    decreases (match c.sub {
        Some(sb) => sb.depth@ + 1,
        None => 0nat,
    }), 0int, 0int,
{
    &&& cmd_shape(c)
    &&& match c.sub {
        Some(sb) => set_wf(&*sb),
        None => true,
    }
}

impl CommandSpec {
    /// Build and validate one command from its documentation lines,
    /// its field declarations, and — for a subcommand or a path rest
    /// field — its nested command set.
    ///
    /// Absent documentation is fatal; the declared field count must
    /// equal the usage line's arity; a subcommand must be a single
    /// non-path rest field; a path field must be the rest field; and
    /// the nested set must be present exactly when needed.
    #[verifier::loop_isolation(false)]
    #[verifier::rlimit(60)]
    pub fn new(
        opts: CommandOpts,
        doc_lines: &Vec<String>,
        decls: Vec<FieldDecl>,
        sub: Option<Box<CommandSet>>,
    ) -> (r: Result<CommandSpec, SpecError>)
        requires
            match sub {
                Some(ref sb) => set_wf(&**sb),
                None => true,
            },
        ensures
            ({
                let lv = doc_lines.deep_view();
                if lv.len() == 0 {
                    r matches Err(e) && e is MissingDocs
                } else {
                    match docs_result(lv) {
                        Err(ef) => r matches Err(e) && spec_err_is(&e, ef),
                        Ok(df) => match cmd_build_check(opts, df.usage, decls@, sub is Some) {
                            Some(ef) => r matches Err(e) && spec_err_is(&e, ef),
                            None => r matches Ok(c) && cmd_ready(c) && c.opts == opts
                                && docs_is_form(&c.docs, df) && fields_built(
                                c.fields@,
                                df.usage,
                                decls@,
                            ) && (c.sub is Some <==> sub is Some),
                        },
                    }
                }
            }),
    {
        if doc_lines.len() == 0 {
            return Err(SpecError::MissingDocs);
        }
        let docs = match CommandDocs::parse_docs(doc_lines) {
            Ok(d) => d,
            Err(e) => {
                return Err(e);
            },
        };
        let ghost df = match docs_result(doc_lines.deep_view()) {
            Ok(df) => df,
            Err(_) => arbitrary(),
        };
        let ghost f = df.usage;
        assert(uform_of(&docs.usage) == f);

        let nreq = docs.usage.required.len();
        let nopt = docs.usage.optional.len();
        let has_rest = match &docs.usage.rest {
            RestArg::NoRest => false,
            _ => true,
        };
        let rest_n: usize = if has_rest {
            1
        } else {
            0
        };
        let count_ok = decls.len() >= nreq && decls.len() - nreq >= nopt && decls.len() - nreq
            - nopt == rest_n;
        if !count_ok {
            assert(decls@.len() != arity_of(f));
            return Err(SpecError::FieldCountMismatch);
        }
        assert(decls@.len() == arity_of(f));

        if opts.subcommand {
            let shape_ok = decls.len() == 1 && has_rest && !decls[0].opts.path && sub.is_some();
            if !shape_ok {
                return Err(SpecError::InvalidSubcommand);
            }
        }

        // Every path field must be the rest field.
        let mut i: usize = 0;
        let mut any_path = false;
        while i < decls.len()
            invariant
                i <= decls@.len(),
                decls@.len() == arity_of(f),
                f == df.usage,
                first_bad_path(f, decls@, 0) == first_bad_path(f, decls@, i as int),
                any_path <==> exists|t: int|
                    0 <= t < i && (#[trigger] decls@[t]).opts.path,
            decreases decls@.len() - i,
        {
            if decls[i].opts.path {
                let is_rest_pos = has_rest && i == decls.len() - 1;
                if !is_rest_pos {
                    assert(!(mode_at(f, i as int) is RestRequired || mode_at(f, i as int)
                        is RestOptional));
                    assert(first_bad_path(f, decls@, i as int) == Some(i as int));
                    let name = name_of_position(&docs, i);
                    return Err(SpecError::InvalidPathField(name));
                }
                assert(mode_at(f, i as int) is RestRequired || mode_at(f, i as int)
                    is RestOptional);
                any_path = true;
            } else {
                proof {
                    if any_path {
                        let t = choose|t: int| 0 <= t < i && (#[trigger] decls@[t]).opts.path;
                        assert(0 <= t < i + 1 && decls@[t].opts.path);
                    }
                }
            }
            assert(first_bad_path(f, decls@, i as int) == first_bad_path(f, decls@, i + 1));
            i = i + 1;
        }
        assert(first_bad_path(f, decls@, 0) is None);
        assert(any_path == has_path_decl(decls@));

        if !opts.subcommand && sub.is_some() != any_path {
            return Err(SpecError::InvalidSubcommand);
        }

        // Assemble the fields: names and modes from the usage line,
        // options and conversions from the declarations.
        let mut fields: Vec<FieldSpec> = Vec::new();
        let mut k: usize = 0;
        while k < decls.len()
            invariant
                k <= decls@.len(),
                decls@.len() == arity_of(f),
                f == df.usage,
                uform_of(&docs.usage) == f,
                nreq == docs.usage.required@.len(),
                nopt == docs.usage.optional@.len(),
                fields@.len() == k,
                forall|t: int|
                    0 <= t < k ==> {
                        let fs = #[trigger] fields@[t];
                        fs.name@ == name_at(f, t) && fs.mode == mode_at(f, t) && fs.opts
                            == decls@[t].opts && fs.conv == decls@[t].conv
                    },
            decreases decls@.len() - k,
        {
            let name = name_of_position(&docs, k);
            let mode = if k < nreq {
                FieldMode::Required
            } else if k < nreq + nopt {
                FieldMode::Optional
            } else {
                match &docs.usage.rest {
                    RestArg::Required(_) => FieldMode::RestRequired,
                    _ => FieldMode::RestOptional,
                }
            };
            assert(mode == mode_at(f, k as int));
            fields.push(FieldSpec { name, opts: decls[k].opts, mode, conv: decls[k].conv });
            k = k + 1;
        }

        let c = CommandSpec { opts, docs, fields, sub };
        proof {
            assert(fields_built(c.fields@, f, decls@));
            assert(crate::usage::usage_is_form(&c.docs.usage, f));
            assert(c.docs.usage.ids@.len() >= 1) by {
                lemma_usage_ids_nonempty(doc_lines.deep_view());
            }
            assert(cmd_shape(c)) by {
                assert(fields_match_usage(c.fields@, uform_of(&c.docs.usage)));
                if c.opts.subcommand {
                    assert(c.fields@.len() == 1 && !(f.rest is NoRest)
                        && !c.fields@[0].opts.path);
                }
                assert forall|t: int|
                    0 <= t < c.fields@.len() && (#[trigger] c.fields@[t]).opts.path implies c.fields@[t].mode is RestRequired
                    || c.fields@[t].mode is RestOptional by {
                    assert(first_bad_path(f, decls@, 0) is None);
                    lemma_first_bad_path_none(f, decls@, 0, t);
                }
                assert((c.sub is Some) <==> (c.opts.subcommand || exists|t: int|
                    0 <= t < c.fields@.len() && (#[trigger] c.fields@[t]).opts.path)) by {
                    if has_path_decl(decls@) {
                        let t = choose|t: int|
                            0 <= t < decls@.len() && (#[trigger] decls@[t]).opts.path;
                        assert(c.fields@[t].opts.path);
                    }
                    if exists|t: int|
                        0 <= t < c.fields@.len() && (#[trigger] c.fields@[t]).opts.path {
                        let t = choose|t: int|
                            0 <= t < c.fields@.len() && (#[trigger] c.fields@[t]).opts.path;
                        assert(decls@[t].opts.path);
                        assert(has_path_decl(decls@));
                    }
                }
            }
        }
        Ok(c)
    }
}

/// A successfully parsed documentation block always declares at
/// least one identifier.
pub proof fn lemma_usage_ids_nonempty(lv: Seq<Seq<char>>)
    ensures
        match docs_result(lv) {
            Ok(df) => df.usage.ids.len() >= 1,
            Err(_) => true,
        },
{
    match docs_result(lv) {
        Ok(df) => {
            crate::docs::lemma_docs_result_usage(lv);
            crate::usage::lemma_outcome_ids_nonempty(
                crate::docs::par_join(lv, 0, crate::docs::par_end(lv, 0), false),
            );
        },
        Err(_) => {},
    }
}

/// When no path field is misplaced, every path field is a rest field.
pub proof fn lemma_first_bad_path_none(f: UsageForm, decls: Seq<FieldDecl>, k: int, t: int)
    requires
        0 <= k <= t < decls.len(),
        first_bad_path(f, decls, k) is None,
        decls[t].opts.path,
    ensures
        mode_at(f, t) is RestRequired || mode_at(f, t) is RestOptional,
    decreases t - k,
{
    if k < t {
        lemma_first_bad_path_none(f, decls, k + 1, t);
    }
}

/// The name the usage line gives the argument at position `i`.
fn name_of_position(docs: &CommandDocs, i: usize) -> (r: String)
    requires
        (i as int) < arity_of(uform_of(&docs.usage)),
    ensures
        r@ == name_at(uform_of(&docs.usage), i as int),
{
    let nreq = docs.usage.required.len();
    let nopt = docs.usage.optional.len();
    if i < nreq {
        docs.usage.required[i].clone()
    } else if i - nreq < nopt {
        docs.usage.optional[i - nreq].clone()
    } else {
        match &docs.usage.rest {
            RestArg::Optional(n) => n.clone(),
            RestArg::Required(n) => n.clone(),
            RestArg::NoRest => String::new(),
        }
    }
}


/// Cutting the command list extends its identifier entries on the
/// right, one command at a time.
pub proof fn lemma_id_entries_take(cmds: Seq<CommandSpec>, j: int)
    requires
        0 <= j < cmds.len(),
    ensures
        id_entries(cmds.take(j + 1)) == id_entries(cmds.take(j)) + cmd_entries(cmds[j], j),
{
    assert(cmds.take(j + 1).drop_last() =~= cmds.take(j));
    assert(cmds.take(j + 1).last() == cmds[j]);
    assert(id_entries(cmds.take(j + 1)) == id_entries(cmds.take(j + 1).drop_last())
        + cmd_entries(cmds.take(j + 1).last(), j));
}

/// Likewise for the flattened identifier list.
pub proof fn lemma_flat_ids_take(cmds: Seq<CommandSpec>, j: int)
    requires
        0 <= j < cmds.len(),
    ensures
        flat_ids(cmds.take(j + 1)) == flat_ids(cmds.take(j)) + cmds[j].docs.usage.ids.deep_view(),
{
    assert(cmds.take(j + 1).drop_last() =~= cmds.take(j));
    assert(cmds.take(j + 1).last() == cmds[j]);
}

impl CommandSet {
    /// Build a command set from its documentation lines and its
    /// already-validated commands: the identifier trie over every
    /// lowercased identifier, and the help topics.  Two identifiers
    /// normalising to one string are a construction error.
    #[verifier::loop_isolation(false)]
    #[verifier::rlimit(100)]
    pub fn new(doc_lines: Option<&Vec<String>>, commands: Vec<CommandSpec>) -> (r: Result<
        CommandSet,
        SpecError,
    >)
        requires
            forall|j: int| 0 <= j < commands@.len() ==> cmd_ready(#[trigger] commands@[j]),
        ensures
            ({
                let e = id_entries(commands@);
                let lk = Seq::new(e.len(), |x: int| e[x].0);
                match r {
                    Ok(s) => {
                        &&& set_wf(&s)
                        &&& s.commands@ == commands@
                        &&& key_dup_from(lk, 0) is None
                        &&& match doc_lines {
                            Some(dl) => crate::docs::opt_view(&s.docs.summary)
                                == crate::docs::set_summary_of(dl.deep_view()),
                            None => s.docs.summary is None,
                        }
                    },
                    Err(er) => er matches SpecError::DuplicateId(ds) && key_dup_from(lk, 0)
                        matches Some(d) && ds@ == d,
                }
            }),
    {
        let docs = match doc_lines {
            Some(dl) => {
                match CommandSetDocs::parse_docs(dl) {
                    Ok(d) => d,
                    Err(e) => {
                        return Err(e);
                    },
                }
            },
            None => {
                match CommandSetDocs::no_docs() {
                    Ok(d) => d,
                    Err(e) => {
                        return Err(e);
                    },
                }
            },
        };

        let ghost ie = id_entries(commands@);
        let ghost lk = Seq::new(ie.len(), |x: int| ie[x].0);

        // Every identifier, lowercased, keyed to its command.
        let mut entries: Vec<(String, usize)> = Vec::new();
        let mut j: usize = 0;
        proof {
            assert(commands@.take(0) =~= Seq::<CommandSpec>::empty());
        }
        while j < commands.len()
            invariant
                j <= commands@.len(),
                ie == id_entries(commands@),
                entries@.len() == id_entries(commands@.take(j as int)).len(),
                id_entries(commands@.take(j as int)) == ie.take(entries@.len() as int),
                forall|x: int| 0 <= x < entries@.len() ==> (#[trigger] entries@[x]).0@ == ie[x].0,
                forall|x: int| 0 <= x < entries@.len() ==> (#[trigger] entries@[x]).1 as int
                    == ie[x].1,
                forall|x: int|
                    0 <= x < entries@.len() ==> 0 <= (#[trigger] ie[x]).1 < commands@.len(),
            decreases commands@.len() - j,
        {
            let ids = &commands[j].docs.usage.ids;
            let ghost ce = cmd_entries(commands@[j as int], j as int);
            proof {
                lemma_id_entries_take(commands@, j as int);
                assert(id_entries(commands@.take(j as int + 1)) == id_entries(
                    commands@.take(j as int),
                ) + ce);
                lemma_id_entries_prefix(commands@, j as int + 1);
            }
            let ghost base = entries@.len() as int;
            let mut x: usize = 0;
            while x < ids.len()
                invariant
                    x <= ids@.len(),
                    ids@ == commands@[j as int].docs.usage.ids@,
                    j < commands@.len(),
                    ie == id_entries(commands@),
                    ce == cmd_entries(commands@[j as int], j as int),
                    base == id_entries(commands@.take(j as int)).len(),
                    id_entries(commands@.take(j as int)) == ie.take(base),
                    id_entries(commands@.take(j as int + 1)) == ie.take(base + ce.len() as int),
                    entries@.len() == base + x,
                    base + ce.len() <= ie.len(),
                    forall|y: int| 0 <= y < entries@.len() ==> (#[trigger] entries@[y]).0@
                        == ie[y].0,
                    forall|y: int| 0 <= y < entries@.len() ==> (#[trigger] entries@[y]).1 as int
                        == ie[y].1,
                    forall|y: int|
                        0 <= y < entries@.len() ==> 0 <= (#[trigger] ie[y]).1 < commands@.len(),
                decreases ids@.len() - x,
            {
                let low = lowercase(ids[x].as_str());
                entries.push((low, j));
                proof {
                    assert(ce[x as int] == (lower_of(ids@[x as int]@), j as int));
                    assert(ie.take(base + ce.len() as int)[base + x] == ie[base + x]);
                    assert(ie[base + x as int] == ce[x as int]);
                }
                x = x + 1;
            }
            proof {
                assert(entries@.len() == base + ce.len());
            }
            j = j + 1;
        }
        proof {
            assert(commands@.take(commands@.len() as int) =~= commands@);
            assert(entries@.len() == ie.len());
            assert(keys_of(entries@) =~= lk);
        }

        let trie = match Trie::new(entries) {
            Ok(t) => t,
            Err(e) => {
                return Err(e);
            },
        };

        // The help topics, one per command, plus the root topic.
        let mut topics: Vec<HelpTopic> = Vec::new();
        let mut usages: Vec<crate::help::CommandUsage> = Vec::new();
        let mut t: usize = 0;
        while t < commands.len()
            invariant
                t <= commands@.len(),
                topics@.len() == t,
                usages@.len() == t,
                forall|q: int|
                    0 <= q < t ==> ((#[trigger] topics@[q]) matches HelpTopic::Command(hu, hd)
                        && usage_record_is(&hu, &commands@[q].docs.usage) && desc_record_is(
                        &hd,
                        &commands@[q].docs,
                    )),
                forall|q: int|
                    0 <= q < t ==> usage_record_is(
                        &#[trigger] usages@[q],
                        &commands@[q].docs.usage,
                    ),
            decreases commands@.len() - t,
        {
            let hu = usage_record(&commands[t].docs.usage);
            let hd = desc_record(&commands[t].docs);
            usages.push(usage_record(&commands[t].docs.usage));
            topics.push(HelpTopic::Command(hu, hd));
            t = t + 1;
        }
        let summary = match &docs.summary {
            Some(sx) => Some(sx.clone()),
            None => None,
        };
        let root_topic = HelpTopic::CommandSet(summary, usages);

        let ghost d = subs_bound(commands@);
        let s = CommandSet { docs, commands, trie, root_topic, topics, depth: Ghost(d) };
        proof {
            assert forall|q: int| 0 <= q < s.commands@.len() implies cmd_wf(
                #[trigger] s.commands@[q],
                d,
            ) by {
                assert(cmd_ready(s.commands@[q]));
                lemma_subs_bound(s.commands@, q);
            }
            lemma_cmds_wf_build(s.commands@, d);
            assert(set_wf_shallow(&s));
            assert(set_wf(&s));
        }
        Ok(s)
    }
}

/// An identifier-entry prefix of the whole list.
pub proof fn lemma_id_entries_prefix(cmds: Seq<CommandSpec>, j: int)
    requires
        0 <= j <= cmds.len(),
    ensures
        id_entries(cmds.take(j)) == id_entries(cmds).take(id_entries(cmds.take(j)).len() as int),
        id_entries(cmds.take(j)).len() <= id_entries(cmds).len(),
    decreases cmds.len() - j,
{
    if j == cmds.len() {
        assert(cmds.take(j) =~= cmds);
        assert(id_entries(cmds).take(id_entries(cmds).len() as int) =~= id_entries(cmds));
    } else {
        lemma_id_entries_prefix(cmds, j + 1);
        lemma_id_entries_take(cmds, j);
        let a = id_entries(cmds.take(j));
        let b = id_entries(cmds.take(j + 1));
        let full = id_entries(cmds);
        assert(b == a + cmd_entries(cmds[j], j));
        assert(b == full.take(b.len() as int));
        assert(a =~= full.take(a.len() as int)) by {
            assert forall|y: int| 0 <= y < a.len() implies a[y] == full[y] by {
                assert(b[y] == a[y]);
                assert(full.take(b.len() as int)[y] == full[y]);
            }
        }
    }
}

} // verus!
