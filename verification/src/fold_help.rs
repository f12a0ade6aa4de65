//! The help-folding protocol: a double-dispatch visitor over help
//! topics, and a reference implementation producing multiline text
//! akin to command help pages.
use vstd::prelude::*;

use crate::help::{ArgumentDesc, ArgumentUsage, CommandDesc, CommandUsage, HelpTopic};
use crate::text::is_ws_char;

verus! {

/// A visitor over the pieces of a help topic.  The `fold_*` free
/// functions drive it over a whole topic.
pub trait FoldHelp {
    /// The output of a processed topic.
    type Output;

    /// A whole command topic, from its folded usage and description.
    fn command_topic(&self, usage: Self::Output, desc: Self::Output) -> Self::Output;

    /// A command-set topic, from the set's summary and the folded
    /// usage of each command.
    fn command_set_topic(&self, summary: &Option<String>, commands: Vec<Self::Output>) -> Self::Output;

    /// A custom topic.
    fn custom_topic(&self, topic: &String) -> Self::Output;

    /// One argument inside a usage line.
    fn argument_usage(&self, name: &String, is_required: bool, is_rest: bool) -> Self::Output;

    /// A command's usage line, from its folded arguments.  `long`
    /// asks for the full form rather than the compact one.
    fn command_usage(
        &self,
        ids: &Vec<String>,
        args: Vec<Self::Output>,
        desc: &String,
        long: bool,
    ) -> Self::Output;

    /// One argument's description line.
    fn argument_desc(&self, name: &String, is_required: bool, desc: &String) -> Self::Output;

    /// A command's description blocks, from its folded arguments.
    fn command_desc(
        &self,
        summary: &Option<String>,
        args: Vec<Self::Output>,
        examples: &Option<String>,
    ) -> Self::Output;
}

/// Fold a usage record: each argument, then the line.
pub fn fold_command_usage<F: FoldHelp>(f: &F, usage: &CommandUsage, long: bool) -> F::Output {
    let mut args: Vec<F::Output> = Vec::new();
    let mut i: usize = 0;
    while i < usage.args.len()
        decreases usage.args@.len() - i,
    {
        let a: &ArgumentUsage = &usage.args[i];
        args.push(f.argument_usage(&a.name, a.is_required, a.is_rest));
        i = i + 1;
    }
    f.command_usage(&usage.ids, args, &usage.desc, long)
}

/// Fold a description record: each argument, then the blocks.
pub fn fold_command_desc<F: FoldHelp>(f: &F, desc: &CommandDesc) -> F::Output {
    let mut args: Vec<F::Output> = Vec::new();
    let mut i: usize = 0;
    while i < desc.args.len()
        decreases desc.args@.len() - i,
    {
        let a: &ArgumentDesc = &desc.args[i];
        args.push(f.argument_desc(&a.name, a.is_required, &a.desc));
        i = i + 1;
    }
    f.command_desc(&desc.summary, args, &desc.examples)
}

/// Fold a whole topic.
pub fn fold_topic<F: FoldHelp>(f: &F, topic: &HelpTopic) -> F::Output {
    match topic {
        HelpTopic::Command(usage, desc) => {
            let u = fold_command_usage(f, usage, true);
            let d = fold_command_desc(f, desc);
            f.command_topic(u, d)
        },
        HelpTopic::CommandSet(summary, commands) => {
            let mut cs: Vec<F::Output> = Vec::new();
            let mut i: usize = 0;
            while i < commands.len()
                decreases commands@.len() - i,
            {
                cs.push(fold_command_usage(f, &commands[i], false));
                i = i + 1;
            }
            f.command_set_topic(summary, cs)
        },
        HelpTopic::Custom(t) => f.custom_topic(t),
    }
}

// ---------------------------------------------------------------------
// The reference renderer
// ---------------------------------------------------------------------

/// Whether an identifier needs parentheses on its own: empty or
/// holding whitespace.
pub open spec fn id_needs_paren(s: Seq<char>) -> bool {
    s.len() == 0 || exists|k: int| 0 <= k < s.len() && is_ws_char(#[trigger] s[k])
}

/// The identifiers joined with pipes.
pub open spec fn ids_join(ids: Seq<Seq<char>>) -> Seq<char>
    decreases ids.len(),
{
    if ids.len() == 0 {
        Seq::empty()
    } else if ids.len() == 1 {
        ids[0]
    } else {
        ids[0] + "|"@ + ids_join(ids.drop_first())
    }
}

/// A command's identifiers as one word: parenthesized unless it is a
/// single plain identifier.
pub open spec fn ids_text(ids: Seq<Seq<char>>) -> Seq<char> {
    if ids.len() != 1 || id_needs_paren(ids[0]) {
        "("@ + ids_join(ids) + ")"@
    } else {
        ids[0]
    }
}

/// What remains of the pipe-joined identifiers after the first `i`.
pub open spec fn ids_tail(ids: Seq<Seq<char>>, i: int) -> Seq<char> {
    if i <= 0 {
        ids_join(ids)
    } else if i < ids.len() {
        "|"@ + ids_join(ids.skip(i))
    } else {
        Seq::empty()
    }
}

/// The reference renderer for help topics.
#[derive(Debug, Clone, Copy, PartialEq, Eq)]
pub struct SimpleFoldHelp;

impl SimpleFoldHelp {
    /// Format the identifiers of a command, parenthesized when there
    /// are several or the single one is empty or holds whitespace.
    #[verifier::loop_isolation(false)]
    pub fn write_command_ids(ids: &Vec<String>) -> (r: String)
        ensures
            r@ == ids_text(ids.deep_view()),
    {
        let ghost iv = ids.deep_view();
        let mut paren = ids.len() != 1;
        if !paren {
            let id0 = ids[0].as_str();
            let n = id0.unicode_len();
            let mut k: usize = 0;
            let mut ws = n == 0;
            while k < n
                invariant
                    k <= n,
                    n == iv[0].len(),
                    ws == (n == 0 || exists|t: int|
                        0 <= t < k && is_ws_char(#[trigger] iv[0][t])),
                decreases n - k,
            {
                if crate::text::ws_at(id0, k) {
                    ws = true;
                    proof {
                        assert(0 <= k < k + 1 && is_ws_char(iv[0][k as int]));
                    }
                } else {
                    proof {
                        if ws && n != 0 {
                            let t = choose|t: int|
                                0 <= t < k && is_ws_char(#[trigger] iv[0][t]);
                            assert(0 <= t < k + 1 && is_ws_char(iv[0][t]));
                        }
                    }
                }
                k = k + 1;
            }
            paren = ws;
            assert(paren == id_needs_paren(iv[0]));
        }
        let mut out = String::new();
        if paren {
            out.append("(");
        }
        let ghost base = out@;
        let mut i: usize = 0;
        proof {
            assert(out@ + ids_tail(iv, 0) =~= base + ids_join(iv));
        }
        while i < ids.len()
            invariant
                i <= iv.len(),
                iv == ids.deep_view(),
                out@ + ids_tail(iv, i as int) == base + ids_join(iv),
            decreases iv.len() - i,
        {
            let ghost prev = out@;
            if i > 0 {
                out.append("|");
            }
            out.append(ids[i].as_str());
            proof {
                let rest = iv.skip(i as int);
                assert(rest[0] == iv[i as int]);
                assert(rest.drop_first() =~= iv.skip(i + 1));
                if i == 0 {
                    assert(rest =~= iv);
                    if iv.len() == 1 {
                        assert(ids_join(iv) == iv[0]);
                        assert(out@ + ids_tail(iv, 1) =~= base + ids_join(iv));
                    } else {
                        assert(ids_join(iv) == iv[0] + "|"@ + ids_join(iv.drop_first()));
                        assert(iv.drop_first() =~= iv.skip(1));
                        assert(out@ + ids_tail(iv, 1) =~= base + ids_join(iv));
                    }
                } else {
                    assert(ids_tail(iv, i as int) == "|"@ + ids_join(rest));
                    if rest.len() == 1 {
                        assert(ids_join(rest) == rest[0]);
                        assert(out@ + ids_tail(iv, i + 1) =~= prev + ids_tail(iv, i as int));
                    } else {
                        assert(ids_join(rest) == rest[0] + "|"@ + ids_join(rest.drop_first()));
                        assert(out@ + ids_tail(iv, i + 1) =~= prev + ids_tail(iv, i as int));
                    }
                }
            }
            i = i + 1;
        }
        proof {
            assert(ids_tail(iv, iv.len() as int) =~= Seq::<char>::empty());
            if iv.len() == 0 {
                assert(ids_join(iv) =~= Seq::<char>::empty());
            }
            assert(out@ =~= base + ids_join(iv));
        }
        if paren {
            out.append(")");
        }
        proof {
            if paren {
                assert(out@ =~= "("@ + ids_join(iv) + ")"@);
            } else {
                assert(iv.len() == 1 && !id_needs_paren(iv[0]));
                assert(out@ =~= ids_join(iv));
                assert(ids_join(iv) == iv[0]);
            }
        }
        out
    }
}


impl FoldHelp for SimpleFoldHelp {
    type Output = String;

    fn command_topic(&self, usage: Self::Output, desc: Self::Output) -> Self::Output {
        let mut out = String::new();
        out.append(usage.as_str());
        if !(usage.as_str().is_empty() || desc.as_str().is_empty()) {
            out.append("\n\n");
        }
        out.append(desc.as_str());
        out
    }

    fn command_set_topic(&self, summary: &Option<String>, commands: Vec<Self::Output>) -> Self::Output {
        let mut out = String::new();
        match summary {
            Some(sx) => {
                out.append(sx.as_str());
            },
            None => {},
        }
        if commands.len() > 0 {
            if !out.as_str().is_empty() {
                out.append("\n\n");
            }
            out.append("COMMANDS");
            let mut i: usize = 0;
            while i < commands.len()
                decreases commands@.len() - i,
            {
                out.append("\n  ");
                out.append(commands[i].as_str());
                i = i + 1;
            }
        }
        out
    }

    fn custom_topic(&self, topic: &String) -> Self::Output {
        topic.clone()
    }

    fn argument_usage(&self, name: &String, is_required: bool, is_rest: bool) -> Self::Output {
        let mut out = String::new();
        if is_required {
            out.append("<");
        } else {
            out.append("[");
        }
        out.append(name.as_str());
        if is_rest {
            out.append("...");
        }
        if is_required {
            out.append(">");
        } else {
            out.append("]");
        }
        out
    }

    fn command_usage(
        &self,
        ids: &Vec<String>,
        args: Vec<Self::Output>,
        desc: &String,
        long: bool,
    ) -> Self::Output {
        let mut out = String::new();
        if long {
            out.append("USAGE: ");
        }
        out.append(Self::write_command_ids(ids).as_str());
        let mut i: usize = 0;
        while i < args.len()
            decreases args@.len() - i,
        {
            if !out.as_str().is_empty() {
                out.append(" ");
            }
            out.append(args[i].as_str());
            i = i + 1;
        }
        if !out.as_str().is_empty() {
            if long {
                out.append("\n");
            } else {
                out.append(": ");
            }
        }
        out.append(desc.as_str());
        out
    }

    fn argument_desc(&self, name: &String, is_required: bool, desc: &String) -> Self::Output {
        let mut out = String::new();
        out.append(name.as_str());
        if !is_required {
            out.append(" (optional)");
        }
        out.append(": ");
        out.append(desc.as_str());
        out
    }

    fn command_desc(
        &self,
        summary: &Option<String>,
        args: Vec<Self::Output>,
        examples: &Option<String>,
    ) -> Self::Output {
        let mut out = String::new();
        match summary {
            Some(sx) => {
                out.append("SUMMARY\n");
                out.append(sx.as_str());
            },
            None => {},
        }
        if args.len() > 0 {
            if !out.as_str().is_empty() {
                out.append("\n\n");
            }
            out.append("ARGUMENTS");
            let mut i: usize = 0;
            while i < args.len()
                decreases args@.len() - i,
            {
                out.append("\n  ");
                out.append(args[i].as_str());
                i = i + 1;
            }
        }
        match examples {
            Some(ex) => {
                if !out.as_str().is_empty() {
                    out.append("\n\n");
                }
                out.append("EXAMPLES\n\n");
                out.append(ex.as_str());
            },
            None => {},
        }
        out
    }
}

} // verus!
