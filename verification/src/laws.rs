//! The engine's laws, stated and proved once against the parsing
//! relations: canonical identifiers always resolve to their own
//! command, rest collection is exact, and help addressing returns the
//! advertised topics.
use vstd::prelude::*;

use crate::command::{
    cmd_entries, cmd_wf, id_entries, lemma_cmds_wf_index, lemma_id_entries_prefix,
    lemma_id_entries_take, CommandSet, CommandSpec, set_wf,
};
use crate::engine::{
    avail_n, cands_of, cmd_depth, cmd_err, cmd_ok, cmd_val, first_nonconv, help_topic_of, id_of,
    id_ok, nonrest_n, set_keys, set_ok, set_val, ufof, CommandPath, CommandValue, FieldValue,
};
use crate::errors::CommandParseError;
use crate::help::{usage_record_is, HelpTopic};
use crate::lower::lower_of;
use crate::trie::{agg_ids, keys_of, lemma_exact_of_key};
use crate::usage::RestForm;

verus! {

/// A token whose lowercased form equals one of the trie's keys
/// resolves, unambiguously, to that entry's command.
pub proof fn lemma_exact_token_resolves(s: &CommandSet, t: Seq<char>, x: int)
    requires
        set_wf(s),
        0 <= x < s.trie.entries@.len(),
        lower_of(t) == keys_of(s.trie.entries@)[x],
    ensures
        id_ok(s, t),
        id_of(s, t) == s.trie.entries@[x].1 as int,
{
    let K = set_keys(s);
    lemma_exact_of_key(K, lower_of(t), x);
    assert(agg_ids(K, lower_of(t)) == seq![x]);
    assert(cands_of(s, t) == seq![x]);
    assert(cands_of(s, t)[0] == x);
}

/// Each identifier of each command stands in the trie, lowercased and
/// keyed to that command.
pub proof fn lemma_id_entry_at(s: &CommandSet, j: int, y: int) -> (x: int)
    requires
        set_wf(s),
        0 <= j < s.commands@.len(),
        0 <= y < s.commands@[j].docs.usage.ids@.len(),
    ensures
        0 <= x < s.trie.entries@.len(),
        keys_of(s.trie.entries@)[x] == lower_of(s.commands@[j].docs.usage.ids@[y]@),
        s.trie.entries@[x].1 as int == j,
{
    let cmds = s.commands@;
    lemma_id_entries_take(cmds, j);
    lemma_id_entries_prefix(cmds, j + 1);
    let base = id_entries(cmds.take(j)).len() as int;
    let e = id_entries(cmds);
    assert(id_entries(cmds.take(j + 1)) == id_entries(cmds.take(j)) + cmd_entries(cmds[j], j));
    assert(id_entries(cmds.take(j + 1)) == e.take(id_entries(cmds.take(j + 1)).len() as int));
    let xi = base + y;
    assert(id_entries(cmds.take(j + 1))[xi] == cmd_entries(cmds[j], j)[y]);
    assert(e[xi] == cmd_entries(cmds[j], j)[y]);
    assert(e[xi] == (lower_of(cmds[j].docs.usage.ids@[y]@), j));
    assert(s.trie.entries@[xi].0@ == e[xi].0);
    assert(keys_of(s.trie.entries@)[xi] == s.trie.entries@[xi].0@);
    xi
}

/// Law: a declared identifier always resolves to its own command, and
/// when the remaining tokens satisfy that command's arity, the whole
/// parse succeeds and every value it can yield carries that command's
/// index.  In particular, parsing `[X, ...validArgs]` for a canonical
/// name `X` yields a value whose identifier is `X`'s command.
pub proof fn lemma_declared_id_parses(s: &CommandSet, toks: Seq<Seq<char>>, j: int, y: int)
    requires
        set_wf(s),
        0 <= j < s.commands@.len(),
        0 <= y < s.commands@[j].docs.usage.ids@.len(),
        toks.len() > 0,
        lower_of(toks[0]) == lower_of(s.commands@[j].docs.usage.ids@[y]@),
        cmd_ok(&s.commands@[j], toks.skip(1)),
    ensures
        set_ok(s, toks),
        id_of(s, toks[0]) == j,
        forall|v: CommandValue| set_val(s, toks, &v) ==> v.id == j,
{
    let x = lemma_id_entry_at(s, j, y);
    lemma_exact_token_resolves(s, toks[0], x);
    lemma_cmds_wf_index(s.commands@, s.depth@, j);
}

/// Law: rest collection for a plain required rest field.  With no
/// remaining tokens the parse fails with the missing-argument error
/// naming the rest field; with all tokens converting, it succeeds and
/// collects exactly one value per token; with a first failing token,
/// it fails with a conversion error naming that token.
pub proof fn lemma_rest_collection(c: &CommandSpec, ts: Seq<Seq<char>>)
    requires
        cmd_wf(*c, cmd_depth(c) + 1),
        ufof(c).rest is ReqRest,
        !c.opts.subcommand,
        !c.fields@[nonrest_n(c)].opts.path,
        crate::engine::first_bad(c, ts, 0, avail_n(c, ts)) is None,
        ts.len() >= ufof(c).required.len(),
    ensures
        ({
            let m = nonrest_n(c);
            let rem = ts.skip(avail_n(c, ts));
            let conv = c.fields@[m].conv;
            &&& rem.len() == 0 ==> !cmd_ok(c, ts) && (forall|e: CommandParseError|
                cmd_err(c, ts, &e) ==> (e matches CommandParseError::MissingRequired(an)
                    && an.arg@ == c.fields@[m].name@))
            &&& rem.len() > 0 && first_nonconv(conv, rem, 0) is None ==> cmd_ok(c, ts) && (
            forall|v: CommandValue|
                cmd_val(c, c.fields@.len() as int, ts, &v) ==> (v.fields@[m] matches
                    FieldValue::Many(vs) && vs@.len() == rem.len()))
            &&& first_nonconv(conv, rem, 0) matches Some(k) ==> !cmd_ok(c, ts) && (forall|
                e: CommandParseError,
            |
                cmd_err(c, ts, &e) ==> (e matches CommandParseError::BadConvert(an, ce)
                    && an.arg@ == c.fields@[m].name@ && (ce matches
                    crate::errors::ConvertError::BadNumber(b) && b@ == rem[k])))
        }),
{
    let m = nonrest_n(c);
    assert(c.fields@.len() == m + 1) by {
        assert(crate::command::fields_match_usage(c.fields@, ufof(c)));
    }
    let rem = ts.skip(avail_n(c, ts));
    if rem.len() == 0 {
        assert(!cmd_ok(c, ts));
    }
}

/// Law: the root help topic is always the set's one command-set
/// topic, and addressing any declared command returns a command topic
/// whose usage identifiers are exactly that command's, the canonical
/// one first.
pub proof fn lemma_help_topics(s: &CommandSet, j: int)
    requires
        set_wf(s),
        0 <= j < s.commands@.len(),
    ensures
        help_topic_of(s, None) == s.root_topic,
        s.root_topic is CommandSet,
        ({
            let p = CommandPath { head: j as usize, sub: None };
            &&& help_topic_of(s, Some(&p)) == s.topics@[j]
            &&& (s.topics@[j] matches HelpTopic::Command(hu, _) && usage_record_is(
                &hu,
                &s.commands@[j].docs.usage,
            ) && hu.ids.deep_view() == s.commands@[j].docs.usage.ids.deep_view())
        }),
{
}

} // verus!
