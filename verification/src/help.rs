//! The help model: static usage and description records, one topic per
//! command plus one root topic for the whole command set.
use vstd::prelude::*;

use crate::docs::{ArgumentDoc, CommandDocs};
use crate::usage::{CommandUsage as GrammarUsage, RestArg};

verus! {

/// Usage record for one argument of a command.
#[derive(Debug, Clone, PartialEq, Eq)]
pub struct ArgumentUsage {
    /// The argument's name.
    pub name: String,
    /// Whether the argument is required.
    pub is_required: bool,
    /// Whether the argument is a rest parameter.
    pub is_rest: bool,
}

/// Usage record for a command, as rendered in help text.
#[derive(Debug, Clone, PartialEq, Eq)]
pub struct CommandUsage {
    /// The identifiers of the command; the first is canonical.
    pub ids: Vec<String>,
    /// Usage records for the arguments, in order.
    pub args: Vec<ArgumentUsage>,
    /// The short description.
    pub desc: String,
}

/// Description record for one argument.
#[derive(Debug, Clone, PartialEq, Eq)]
pub struct ArgumentDesc {
    /// The argument's name.
    pub name: String,
    /// Whether the argument is required.
    pub is_required: bool,
    /// The long description.
    pub desc: String,
}

/// The long description of a command.
#[derive(Debug, Clone, PartialEq, Eq)]
pub struct CommandDesc {
    /// The summary section, if any.
    pub summary: Option<String>,
    /// Descriptions of the arguments, in order.
    pub args: Vec<ArgumentDesc>,
    /// Example uses, if any.
    pub examples: Option<String>,
}

/// A help topic.
#[derive(Debug, Clone, PartialEq, Eq)]
pub enum HelpTopic {
    /// The topic of a single command: its usage and description.
    Command(CommandUsage, CommandDesc),
    /// The topic of a command set: an optional summary and every
    /// direct command's usage.
    CommandSet(Option<String>, Vec<CommandUsage>),
    /// A custom topic.
    Custom(String),
}

/// The argument-usage records a grammar usage model prescribes: the
/// required names, then the optional names, then the rest name.
pub open spec fn arg_usages_of(u: &GrammarUsage) -> Seq<(Seq<char>, bool, bool)> {
    Seq::new(u.required@.len(), |i: int| (u.required@[i]@, true, false)) + Seq::new(
        u.optional@.len(),
        |i: int| (u.optional@[i]@, false, false),
    ) + (match u.rest {
        RestArg::NoRest => Seq::<(Seq<char>, bool, bool)>::empty(),
        RestArg::Optional(ref n) => seq![(n@, false, true)],
        RestArg::Required(ref n) => seq![(n@, true, true)],
    })
}

/// Whether `hu` is the help usage record of the grammar usage `u`.
pub open spec fn usage_record_is(hu: &CommandUsage, u: &GrammarUsage) -> bool {
    &&& hu.ids.deep_view() == u.ids.deep_view()
    &&& hu.desc@ == u.desc@
    &&& hu.args@.len() == arg_usages_of(u).len()
    &&& forall|i: int|
        0 <= i < hu.args@.len() ==> {
            let a = #[trigger] hu.args@[i];
            let e = arg_usages_of(u)[i];
            a.name@ == e.0 && a.is_required == e.1 && a.is_rest == e.2
        }
}

/// Whether `hd` is the description record of the documentation `d`.
pub open spec fn desc_record_is(hd: &CommandDesc, d: &CommandDocs) -> bool {
    &&& match (&hd.summary, &d.summary) {
        (Some(a), Some(b)) => a@ == b@,
        (None, None) => true,
        _ => false,
    }
    &&& hd.args@.len() == d.args@.len()
    &&& forall|i: int|
        0 <= i < hd.args@.len() ==> {
            let a = #[trigger] hd.args@[i];
            let e = d.args@[i];
            a.name@ == e.name@ && a.is_required == e.required && a.desc@ == e.desc@
        }
    &&& match (&hd.examples, &d.examples) {
        (Some(a), Some(b)) => a@ == b@,
        (None, None) => true,
        _ => false,
    }
}

/// Build the help usage record of a command's usage line.
pub fn usage_record(u: &GrammarUsage) -> (r: CommandUsage)
    ensures
        usage_record_is(&r, u),
{
    let ghost exp = arg_usages_of(u);
    let mut args: Vec<ArgumentUsage> = Vec::new();
    let mut i: usize = 0;
    while i < u.required.len()
        invariant
            i <= u.required@.len(),
            args@.len() == i,
            forall|t: int|
                0 <= t < i ==> {
                    let a = #[trigger] args@[t];
                    a.name@ == exp[t].0 && a.is_required == exp[t].1 && a.is_rest == exp[t].2
                },
            exp == arg_usages_of(u),
        decreases u.required@.len() - i,
    {
        args.push(ArgumentUsage { name: u.required[i].clone(), is_required: true, is_rest: false });
        i = i + 1;
    }
    let mut j: usize = 0;
    while j < u.optional.len()
        invariant
            j <= u.optional@.len(),
            args@.len() == u.required@.len() + j,
            forall|t: int|
                0 <= t < args@.len() ==> {
                    let a = #[trigger] args@[t];
                    a.name@ == exp[t].0 && a.is_required == exp[t].1 && a.is_rest == exp[t].2
                },
            exp == arg_usages_of(u),
        decreases u.optional@.len() - j,
    {
        args.push(
            ArgumentUsage { name: u.optional[j].clone(), is_required: false, is_rest: false },
        );
        j = j + 1;
    }
    match &u.rest {
        RestArg::NoRest => {},
        RestArg::Optional(n) => {
            args.push(ArgumentUsage { name: n.clone(), is_required: false, is_rest: true });
        },
        RestArg::Required(n) => {
            args.push(ArgumentUsage { name: n.clone(), is_required: true, is_rest: true });
        },
    }
    let mut ids: Vec<String> = Vec::new();
    let mut k: usize = 0;
    while k < u.ids.len()
        invariant
            k <= u.ids@.len(),
            ids@.len() == k,
            forall|t: int| 0 <= t < k ==> (#[trigger] ids@[t])@ == u.ids@[t]@,
        decreases u.ids@.len() - k,
    {
        ids.push(u.ids[k].clone());
        k = k + 1;
    }
    proof {
        assert(ids.deep_view() =~= u.ids.deep_view());
    }
    CommandUsage { ids, args, desc: u.desc.clone() }
}

/// Build the description record of a command's documentation.
pub fn desc_record(d: &CommandDocs) -> (r: CommandDesc)
    ensures
        desc_record_is(&r, d),
{
    let summary = match &d.summary {
        Some(s) => Some(s.clone()),
        None => None,
    };
    let examples = match &d.examples {
        Some(s) => Some(s.clone()),
        None => None,
    };
    let mut args: Vec<ArgumentDesc> = Vec::new();
    let mut i: usize = 0;
    while i < d.args.len()
        invariant
            i <= d.args@.len(),
            args@.len() == i,
            forall|t: int|
                0 <= t < i ==> {
                    let a = #[trigger] args@[t];
                    let e = d.args@[t];
                    a.name@ == e.name@ && a.is_required == e.required && a.desc@ == e.desc@
                },
        decreases d.args@.len() - i,
    {
        let e: &ArgumentDoc = &d.args[i];
        args.push(
            ArgumentDesc { name: e.name.clone(), is_required: e.required, desc: e.desc.clone() },
        );
        i = i + 1;
    }
    CommandDesc { summary, args, examples }
}

} // verus!
