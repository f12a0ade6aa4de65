//! The error-folding protocol: a double-dispatch visitor that
//! decomposes structured errors into their leaf cases, and a reference
//! implementation rendering each as an English sentence, with ranked
//! suggestions for unmatched identifiers.
use vstd::prelude::*;

use crate::did_you_mean::{did_you_mean, dym_list};
use crate::errors::{CommandParseError, ConvertError, IdParseError, PathParseError};

verus! {

/// A visitor over the leaf cases of the structured errors.  The
/// `fold_*` free functions drive it over a whole error value.
pub trait FoldError {
    /// The output of a processed error.
    type Output;

    /// An identifier that matched nothing.
    fn no_id_match(&self, given: &String, available: &Vec<String>) -> Self::Output;

    /// An identifier that matched several commands.
    fn ambiguous_id(&self, possible: &Vec<String>, given: &String) -> Self::Output;

    /// A path that ended before naming a command.
    fn incomplete_path(&self, possible: &Vec<String>) -> Self::Output;

    /// A token after a non-subcommand path component.
    fn trailing_path(&self, extra: &String) -> Self::Output;

    /// An empty token stream.
    fn no_input(&self) -> Self::Output;

    /// A missing required argument.
    fn missing_required(&self, cmd: &String, arg: &String) -> Self::Output;

    /// A token that was not a number.
    fn bad_number(&self, token: &String) -> Self::Output;

    /// An argument that failed to convert, with its folded cause.
    fn bad_convert(&self, cmd: &String, arg: &String, inner: Self::Output) -> Self::Output;

    /// A token left over after all arguments.
    fn trailing(&self, cmd: &String, extra: &String) -> Self::Output;

    /// A subcommand that failed, with its folded inner error.
    fn subcommand(&self, subcmd: &String, inner: Self::Output) -> Self::Output;
}

/// Fold an identifier error into its leaf case.
pub fn fold_id_parse<F: FoldError>(f: &F, e: &IdParseError) -> F::Output {
    match e {
        IdParseError::NoMatch(given, available) => f.no_id_match(given, available),
        IdParseError::Ambiguous(possible, given) => f.ambiguous_id(possible, given),
    }
}

/// Fold a path error into its leaf cases.
pub fn fold_path_parse<F: FoldError>(f: &F, e: &PathParseError) -> F::Output {
    match e {
        PathParseError::Incomplete(available) => f.incomplete_path(available),
        PathParseError::BadId(ide) => fold_id_parse(f, ide),
        PathParseError::Trailing(extra) => f.trailing_path(extra),
    }
}

/// Fold a conversion cause into its leaf cases.
pub fn fold_convert<F: FoldError>(f: &F, e: &ConvertError) -> F::Output {
    match e {
        ConvertError::BadNumber(token) => f.bad_number(token),
        ConvertError::BadPath(pe) => fold_path_parse(f, pe),
    }
}

/// Fold a command error into its leaf cases, recursing into nested
/// causes.
pub fn fold_command_parse<F: FoldError>(f: &F, e: &CommandParseError) -> F::Output
    decreases e,
{
    match e {
        CommandParseError::NoInput => f.no_input(),
        CommandParseError::BadId(ide) => fold_id_parse(f, ide),
        CommandParseError::MissingRequired(an) => f.missing_required(&an.cmd, &an.arg),
        CommandParseError::BadConvert(an, ce) => {
            let inner = fold_convert(f, ce);
            f.bad_convert(&an.cmd, &an.arg, inner)
        },
        CommandParseError::Trailing(cmd, extra) => f.trailing(cmd, extra),
        CommandParseError::Subcommand(sc, be) => {
            let inner = fold_command_parse(f, &**be);
            f.subcommand(sc, inner)
        },
    }
}

// ---------------------------------------------------------------------
// The reference renderer
// ---------------------------------------------------------------------

/// The options list as text: each option in single quotes, separated
/// by commas.
pub open spec fn options_text(opts: Seq<Seq<char>>) -> Seq<char>
    decreases opts.len(),
{
    if opts.len() == 0 {
        Seq::empty()
    } else if opts.len() == 1 {
        "'"@ + opts[0] + "'"@
    } else {
        "'"@ + opts[0] + "'"@ + ", "@ + options_text(opts.drop_first())
    }
}

/// The sentence for an identifier that matched nothing, with ranked
/// suggestions when any score well enough, else the full option list.
pub open spec fn msg_no_id_match(given: Seq<char>, available: Seq<Seq<char>>) -> Seq<char> {
    let dym = dym_list(given, available);
    "Not sure what you mean by '"@ + given + "'."@ + (if dym.len() > 0 {
        "  Did you mean: "@ + options_text(dym)
    } else if available.len() > 0 {
        "  Available options are: "@ + options_text(available)
    } else {
        Seq::empty()
    })
}

/// The sentence for an identifier error.
pub open spec fn msg_id_err(e: &IdParseError) -> Seq<char> {
    match e {
        IdParseError::NoMatch(g, av) => msg_no_id_match(g@, av.deep_view()),
        IdParseError::Ambiguous(poss, g) => "Not sure what you mean by '"@ + g@
            + "'.  Could be: "@ + options_text(poss.deep_view()),
    }
}

/// The sentence for a path error.
pub open spec fn msg_path_err(e: &PathParseError) -> Seq<char> {
    match e {
        PathParseError::Incomplete(av) => "Incomplete command path, expected one of: "@
            + options_text(av.deep_view()),
        PathParseError::BadId(ide) => msg_id_err(ide),
        PathParseError::Trailing(x) => "Unexpected extra path argument '"@ + x@ + "'"@,
    }
}

/// The sentence for a conversion cause.
pub open spec fn msg_convert(e: &ConvertError) -> Seq<char> {
    match e {
        ConvertError::BadNumber(b) => "not a number: '"@ + b@ + "'"@,
        ConvertError::BadPath(pe) => msg_path_err(pe),
    }
}

/// The sentence for a command error, nested causes folded in.
pub open spec fn msg_cmd_err(e: &CommandParseError) -> Seq<char>
    decreases e,
{
    match e {
        CommandParseError::NoInput => Seq::empty(),
        CommandParseError::BadId(ide) => msg_id_err(ide),
        CommandParseError::MissingRequired(an) => "Missing required argument '"@ + an.arg@
            + "' to command '"@ + an.cmd@ + "'"@,
        CommandParseError::BadConvert(an, ce) => "Couldn't parse argument '"@ + an.arg@
            + "' of command '"@ + an.cmd@ + "': "@ + msg_convert(ce),
        CommandParseError::Trailing(cmd, extra) => "Unexpected extra argument '"@ + extra@
            + "' to '"@ + cmd@ + "'"@,
        CommandParseError::Subcommand(sc, be) => "Subcommand '"@ + sc@ + "' failed: "@
            + msg_cmd_err(&**be),
    }
}

/// What remains to be appended after the first `i` options.
pub open spec fn opts_tail(opts: Seq<Seq<char>>, i: int) -> Seq<char> {
    if i <= 0 {
        options_text(opts)
    } else if i < opts.len() {
        ", "@ + options_text(opts.skip(i))
    } else {
        Seq::empty()
    }
}

/// The reference English renderer for the structured errors.
#[derive(Debug, Clone, Copy, PartialEq, Eq)]
pub struct SimpleFoldError;

impl SimpleFoldError {
    /// Format a list of options, each in single quotes, separated by
    /// commas.
    #[verifier::loop_isolation(false)]
    pub fn write_options(opts: &Vec<String>) -> (r: String)
        ensures
            r@ == options_text(opts.deep_view()),
    {
        let ghost ov = opts.deep_view();
        let mut out = String::new();
        let mut i: usize = 0;
        proof {
            assert(options_text(ov) =~= out@ + opts_tail(ov, 0));
        }
        while i < opts.len()
            invariant
                i <= ov.len(),
                ov == opts.deep_view(),
                options_text(ov) == out@ + opts_tail(ov, i as int),
            decreases ov.len() - i,
        {
            let ghost prev = out@;
            if i > 0 {
                out.append(", ");
            }
            out.append("'");
            out.append(opts[i].as_str());
            out.append("'");
            proof {
                let rest = ov.skip(i as int);
                assert(rest[0] == ov[i as int]);
                assert(rest.drop_first() =~= ov.skip(i + 1));
                if i == 0 {
                    assert(rest =~= ov);
                    if ov.len() == 1 {
                        assert(options_text(ov) == "'"@ + ov[0] + "'"@);
                        assert(out@ =~= options_text(ov));
                        assert(opts_tail(ov, 1) =~= Seq::<char>::empty());
                        assert(options_text(ov) =~= out@ + opts_tail(ov, 1));
                    } else {
                        assert(options_text(ov) == "'"@ + ov[0] + "'"@ + ", "@ + options_text(
                            ov.drop_first(),
                        ));
                        assert(ov.drop_first() =~= ov.skip(1));
                        assert(out@ =~= prev + "'"@ + ov[0] + "'"@);
                        assert(out@ + opts_tail(ov, 1) =~= options_text(ov));
                    }
                } else {
                    assert(opts_tail(ov, i as int) == ", "@ + options_text(rest));
                    if rest.len() == 1 {
                        assert(options_text(rest) == "'"@ + rest[0] + "'"@);
                        assert(out@ =~= prev + ", "@ + options_text(rest));
                        assert(opts_tail(ov, i + 1) =~= Seq::<char>::empty());
                        assert(options_text(ov) =~= out@ + opts_tail(ov, i + 1));
                    } else {
                        assert(options_text(rest) == "'"@ + rest[0] + "'"@ + ", "@
                            + options_text(rest.drop_first()));
                        assert(out@ + opts_tail(ov, i + 1) =~= prev + opts_tail(ov, i as int));
                        assert(options_text(ov) =~= out@ + opts_tail(ov, i + 1));
                    }
                }
            }
            i = i + 1;
        }
        proof {
            assert(opts_tail(ov, ov.len() as int) =~= Seq::<char>::empty());
            if ov.len() == 0 {
                assert(options_text(ov) =~= Seq::<char>::empty());
            }
            assert(out@ =~= options_text(ov));
        }
        out
    }

    /// Render an identifier error.
    pub fn render_id_err(&self, e: &IdParseError) -> (r: String)
        ensures
            r@ == msg_id_err(e),
    {
        match e {
            IdParseError::NoMatch(given, available) => {
                let dym = did_you_mean(given.as_str(), available);
                let mut out = String::new();
                out.append("Not sure what you mean by '");
                out.append(given.as_str());
                out.append("'.");
                if dym.len() > 0 {
                    out.append("  Did you mean: ");
                    out.append(Self::write_options(&dym).as_str());
                } else if available.len() > 0 {
                    out.append("  Available options are: ");
                    out.append(Self::write_options(available).as_str());
                }
                proof {
                    assert(out@ =~= msg_id_err(e));
                }
                out
            },
            IdParseError::Ambiguous(possible, given) => {
                let mut out = String::new();
                out.append("Not sure what you mean by '");
                out.append(given.as_str());
                out.append("'.  Could be: ");
                out.append(Self::write_options(possible).as_str());
                proof {
                    assert(out@ =~= msg_id_err(e));
                }
                out
            },
        }
    }

    /// Render a path error.
    pub fn render_path_err(&self, e: &PathParseError) -> (r: String)
        ensures
            r@ == msg_path_err(e),
    {
        match e {
            PathParseError::Incomplete(available) => {
                let mut out = String::new();
                out.append("Incomplete command path, expected one of: ");
                out.append(Self::write_options(available).as_str());
                proof {
                    assert(out@ =~= msg_path_err(e));
                }
                out
            },
            PathParseError::BadId(ide) => self.render_id_err(ide),
            PathParseError::Trailing(extra) => {
                let mut out = String::new();
                out.append("Unexpected extra path argument '");
                out.append(extra.as_str());
                out.append("'");
                proof {
                    assert(out@ =~= msg_path_err(e));
                }
                out
            },
        }
    }

    /// Render a conversion cause.
    pub fn render_convert(&self, e: &ConvertError) -> (r: String)
        ensures
            r@ == msg_convert(e),
    {
        match e {
            ConvertError::BadNumber(b) => {
                let mut out = String::new();
                out.append("not a number: '");
                out.append(b.as_str());
                out.append("'");
                proof {
                    assert(out@ =~= msg_convert(e));
                }
                out
            },
            ConvertError::BadPath(pe) => self.render_path_err(pe),
        }
    }

    /// Render a command error, folding nested causes.
    pub fn render_cmd_err(&self, e: &CommandParseError) -> (r: String)
        ensures
            r@ == msg_cmd_err(e),
        decreases e,
    {
        match e {
            CommandParseError::NoInput => String::new(),
            CommandParseError::BadId(ide) => self.render_id_err(ide),
            CommandParseError::MissingRequired(an) => {
                let mut out = String::new();
                out.append("Missing required argument '");
                out.append(an.arg.as_str());
                out.append("' to command '");
                out.append(an.cmd.as_str());
                out.append("'");
                proof {
                    assert(out@ =~= msg_cmd_err(e));
                }
                out
            },
            CommandParseError::BadConvert(an, ce) => {
                let inner = self.render_convert(ce);
                let mut out = String::new();
                out.append("Couldn't parse argument '");
                out.append(an.arg.as_str());
                out.append("' of command '");
                out.append(an.cmd.as_str());
                out.append("': ");
                out.append(inner.as_str());
                proof {
                    assert(out@ =~= msg_cmd_err(e));
                }
                out
            },
            CommandParseError::Trailing(cmd, extra) => {
                let mut out = String::new();
                out.append("Unexpected extra argument '");
                out.append(extra.as_str());
                out.append("' to '");
                out.append(cmd.as_str());
                out.append("'");
                proof {
                    assert(out@ =~= msg_cmd_err(e));
                }
                out
            },
            CommandParseError::Subcommand(sc, be) => {
                let inner = self.render_cmd_err(&**be);
                let mut out = String::new();
                out.append("Subcommand '");
                out.append(sc.as_str());
                out.append("' failed: ");
                out.append(inner.as_str());
                proof {
                    assert(out@ =~= msg_cmd_err(e));
                }
                out
            },
        }
    }
}

impl FoldError for SimpleFoldError {
    type Output = String;

    fn no_id_match(&self, given: &String, available: &Vec<String>) -> Self::Output {
        self.render_id_err(&IdParseError::NoMatch(given.clone(), available.clone()))
    }

    fn ambiguous_id(&self, possible: &Vec<String>, given: &String) -> Self::Output {
        self.render_id_err(&IdParseError::Ambiguous(possible.clone(), given.clone()))
    }

    fn incomplete_path(&self, possible: &Vec<String>) -> Self::Output {
        self.render_path_err(&PathParseError::Incomplete(possible.clone()))
    }

    fn trailing_path(&self, extra: &String) -> Self::Output {
        let mut out = String::new();
        out.append("Unexpected extra path argument '");
        out.append(extra.as_str());
        out.append("'");
        out
    }

    fn no_input(&self) -> Self::Output {
        String::new()
    }

    fn missing_required(&self, cmd: &String, arg: &String) -> Self::Output {
        let mut out = String::new();
        out.append("Missing required argument '");
        out.append(arg.as_str());
        out.append("' to command '");
        out.append(cmd.as_str());
        out.append("'");
        out
    }

    fn bad_number(&self, token: &String) -> Self::Output {
        let mut out = String::new();
        out.append("not a number: '");
        out.append(token.as_str());
        out.append("'");
        out
    }

    fn bad_convert(&self, cmd: &String, arg: &String, inner: Self::Output) -> Self::Output {
        let mut out = String::new();
        out.append("Couldn't parse argument '");
        out.append(arg.as_str());
        out.append("' of command '");
        out.append(cmd.as_str());
        out.append("': ");
        out.append(inner.as_str());
        out
    }

    fn trailing(&self, cmd: &String, extra: &String) -> Self::Output {
        let mut out = String::new();
        out.append("Unexpected extra argument '");
        out.append(extra.as_str());
        out.append("' to '");
        out.append(cmd.as_str());
        out.append("'");
        out
    }

    fn subcommand(&self, subcmd: &String, inner: Self::Output) -> Self::Output {
        let mut out = String::new();
        out.append("Subcommand '");
        out.append(subcmd.as_str());
        out.append("' failed: ");
        out.append(inner.as_str());
        out
    }
}

} // verus!
