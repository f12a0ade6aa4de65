//! Tests for the usage grammar and documentation parsers.
use docbot::docs::{CommandDocs, CommandSetDocs};
use docbot::errors::SpecError;
use docbot::usage::{parse_usage_desc, CommandUsage, RestArg};

fn lines(v: &[&str]) -> Vec<String> {
    v.iter().map(|s| s.to_string()).collect()
}

#[test]
fn usage_bare_id_and_args() {
    let u: CommandUsage = parse_usage_desc("`push <branch> [--force]` Push a branch.").unwrap();
    assert_eq!(u.ids, vec!["push".to_string()]);
    assert_eq!(u.required, vec!["branch".to_string()]);
    assert_eq!(u.optional, vec!["--force".to_string()]);
    assert!(matches!(u.rest, RestArg::NoRest));
    assert_eq!(u.desc, "Push a branch.");
}

#[test]
fn usage_alias_list_and_rest() {
    let u = parse_usage_desc("`(deploy|dep) <a> [b] [files...]`: Deploy things.").unwrap();
    assert_eq!(u.ids, vec!["deploy".to_string(), "dep".to_string()]);
    assert_eq!(u.required, vec!["a".to_string()]);
    assert_eq!(u.optional, vec!["b".to_string()]);
    match &u.rest {
        RestArg::Optional(n) => assert_eq!(n, "files"),
        _ => panic!("expected optional rest"),
    }
    assert_eq!(u.desc, "Deploy things.");
}

#[test]
fn usage_required_rest() {
    let u = parse_usage_desc("`rm <paths...>` Remove paths.").unwrap();
    match &u.rest {
        RestArg::Required(n) => assert_eq!(n, "paths"),
        _ => panic!("expected required rest"),
    }
}

#[test]
fn usage_missing_backticks() {
    assert_eq!(
        parse_usage_desc("no backticks here"),
        Err(SpecError::InvalidUsageParagraph)
    );
}

#[test]
fn usage_missing_id() {
    assert_eq!(parse_usage_desc("`` d"), Err(SpecError::InvalidIdSpecifier));
    assert_eq!(
        parse_usage_desc("`(unclosed` d"),
        Err(SpecError::InvalidIdSpecifier)
    );
}

#[test]
fn usage_trailing_content() {
    match parse_usage_desc("`cmd <a> x!` d") {
        Err(SpecError::TrailingUsage(t)) => assert_eq!(t, " x!"),
        other => panic!("expected trailing error, got {:?}", other),
    }
}

#[test]
fn usage_period_guard() {
    // A long name ending in a period is not absorbed as an argument.
    assert!(matches!(
        parse_usage_desc("`cmd <abc.>` d"),
        Err(SpecError::TrailingUsage(_))
    ));
    // A name of at most two characters may end in a period.
    let u = parse_usage_desc("`cmd <a.>` d").unwrap();
    assert_eq!(u.required, vec!["a.".to_string()]);
}

#[test]
fn docs_full_block() {
    let d = CommandDocs::parse_docs(&lines(&[
        "`push <branch> [--force]` Push a branch.",
        "",
        "# Description",
        "Pushes the named branch",
        "to the remote.",
        "",
        "# Arguments",
        "branch: The branch",
        "  to push.",
        "--force: Whether to force.",
        "",
        "# Examples",
        "push main",
    ]))
    .unwrap();
    assert_eq!(
        d.summary.as_deref(),
        Some("Pushes the named branch to the remote.")
    );
    assert_eq!(d.args.len(), 2);
    assert_eq!(d.args[0].name, "branch");
    assert!(d.args[0].required);
    assert_eq!(d.args[0].desc, "The branch to push.");
    assert_eq!(d.args[1].name, "--force");
    assert!(!d.args[1].required);
    assert_eq!(d.args[1].desc, "Whether to force.");
    assert_eq!(d.examples.as_deref(), Some("push main\n"));
}

#[test]
fn docs_duplicate_summary() {
    let r = CommandDocs::parse_docs(&lines(&[
        "`c` d.",
        "",
        "# Summary",
        "one",
        "",
        "# Overview",
        "two",
    ]));
    assert_eq!(r, Err(SpecError::MultipleSummaries));
}

#[test]
fn docs_missing_description() {
    let r = CommandDocs::parse_docs(&lines(&["`c`"]));
    assert_eq!(r, Err(SpecError::MissingDescription));
}

#[test]
fn docs_missing_header() {
    let r = CommandDocs::parse_docs(&lines(&["`c` d.", "", "no header here"]));
    assert_eq!(r, Err(SpecError::MissingHeader));
}

#[test]
fn docs_argument_absent_from_usage() {
    // An arguments block documenting a name the usage never declares
    // fails, reporting the missing name and the documented set.
    let r = CommandDocs::parse_docs(&lines(&[
        "`c <x>` d.",
        "",
        "# Arguments",
        "y: something else",
    ]));
    match r {
        Err(SpecError::MissingArgDoc(name, have)) => {
            assert_eq!(name, "x");
            assert_eq!(have, vec!["y".to_string()]);
        },
        other => panic!("expected missing-argument error, got {:?}", other),
    }
}

#[test]
fn docs_argument_count_mismatch() {
    let r = CommandDocs::parse_docs(&lines(&[
        "`c <x>` d.",
        "",
        "# Arguments",
        "x: fine",
        "y: extra",
    ]));
    assert_eq!(r, Err(SpecError::ArgCountMismatch(1, 2)));
}

#[test]
fn docs_duplicate_argument() {
    let r = CommandDocs::parse_docs(&lines(&[
        "`c <x>` d.",
        "",
        "# Arguments",
        "x: one",
        "x: twice",
    ]));
    assert_eq!(r, Err(SpecError::DuplicateArgDoc("x".to_string())));
}

#[test]
fn docs_unparseable_arguments() {
    let r = CommandDocs::parse_docs(&lines(&[
        "`c <x>` d.",
        "",
        "# Arguments",
        "just some words",
    ]));
    assert_eq!(r, Err(SpecError::UnexpectedArgFormat));
}

#[test]
fn docs_missing_entirely() {
    assert_eq!(CommandDocs::no_docs(), Err(SpecError::MissingDocs));
}

#[test]
fn set_docs_summary() {
    let d = CommandSetDocs::parse_docs(&lines(&["A set of", "commands.", "", "Second part."]))
        .unwrap();
    assert_eq!(d.summary.as_deref(), Some("A set of commands.\nSecond part."));
    let none = CommandSetDocs::parse_docs(&lines(&["   "])).unwrap();
    assert_eq!(none.summary, None);
    assert_eq!(CommandSetDocs::no_docs().unwrap().summary, None);
}

#[test]
fn docs_duplicate_arguments_section() {
    let r = CommandDocs::parse_docs(&lines(&[
        "`c <x>` d.",
        "",
        "# Arguments",
        "x: one",
        "",
        "# Parameters",
        "x: again",
    ]));
    assert_eq!(r, Err(SpecError::MultipleArgumentSections));
}

#[test]
fn docs_duplicate_examples_section() {
    let r = CommandDocs::parse_docs(&lines(&[
        "`c` d.",
        "",
        "# Examples",
        "one",
        "",
        "# Examples",
        "two",
    ]));
    assert_eq!(r, Err(SpecError::MultipleExamples));
}

#[test]
fn docs_headers_are_case_insensitive() {
    let d = CommandDocs::parse_docs(&lines(&["`c` d.", "", "# SUMMARY", "words"])).unwrap();
    assert_eq!(d.summary.as_deref(), Some("words"));
}

#[test]
fn docs_unknown_sections_are_ignored() {
    let d = CommandDocs::parse_docs(&lines(&["`c` d.", "", "# Notes", "whatever"])).unwrap();
    assert_eq!(d.summary, None);
    assert_eq!(d.args.len(), 0);
}
