//! Tests for the identifier trie, the arity engine, paths and help.
use docbot::command::{CommandOpts, CommandSet, CommandSpec, ConvKind, FieldDecl, FieldOpts};
use docbot::engine::{help, parse_command, parse_path, ArgValue, CommandValue, FieldValue};
use docbot::errors::{CommandParseError, ConvertError, IdParseError, PathParseError, SpecError};
use docbot::help::HelpTopic;

fn lines(v: &[&str]) -> Vec<String> {
    v.iter().map(|s| s.to_string()).collect()
}

fn text_field() -> FieldDecl {
    FieldDecl { opts: FieldOpts::no_opts(), conv: ConvKind::Text }
}

fn nat_field() -> FieldDecl {
    FieldDecl { opts: FieldOpts::no_opts(), conv: ConvKind::Nat }
}

fn cmd(doc: &[&str], decls: Vec<FieldDecl>) -> CommandSpec {
    CommandSpec::new(CommandOpts::no_opts(), &lines(doc), decls, None).unwrap()
}

fn toks(v: &[&str]) -> Vec<String> {
    v.iter().map(|s| s.to_string()).collect()
}

/// A set with one `deploy` command taking no arguments.
fn deploy_only() -> CommandSet {
    CommandSet::new(None, vec![cmd(&["`deploy` Deploy."], vec![])]).unwrap()
}

/// A set with `deploy` and `delete`, both without arguments.
fn deploy_delete() -> CommandSet {
    CommandSet::new(
        None,
        vec![
            cmd(&["`deploy` Deploy."], vec![]),
            cmd(&["`delete` Delete."], vec![]),
        ],
    )
    .unwrap()
}

/// A set with one command of two required and one optional argument.
fn arity_set() -> CommandSet {
    CommandSet::new(
        None,
        vec![cmd(
            &[
                "`cmd <a> <b> [c]` Do things.",
                "",
                "# Arguments",
                "a: First.",
                "b: Second.",
                "c: Third.",
            ],
            vec![text_field(), text_field(), text_field()],
        )],
    )
    .unwrap()
}

#[test]
fn canonical_name_resolves_to_its_command() {
    let set = deploy_delete();
    let v = parse_command(&set, &toks(&["deploy"])).unwrap();
    assert_eq!(v.id, 0);
    let v = parse_command(&set, &toks(&["delete"])).unwrap();
    assert_eq!(v.id, 1);
    // Matching is case-insensitive.
    let v = parse_command(&set, &toks(&["DEPLOY"])).unwrap();
    assert_eq!(v.id, 0);
}

#[test]
fn abbreviation_resolves_when_unique() {
    let set = deploy_only();
    let v = parse_command(&set, &toks(&["de"])).unwrap();
    assert_eq!(v.id, 0);
}

#[test]
fn abbreviation_ambiguous_when_shared() {
    let set = deploy_delete();
    match parse_command(&set, &toks(&["de"])) {
        Err(CommandParseError::BadId(IdParseError::Ambiguous(cands, given))) => {
            assert_eq!(cands, vec!["deploy".to_string(), "delete".to_string()]);
            assert_eq!(given, "de");
        },
        other => panic!("expected ambiguity, got {:?}", other),
    }
}

#[test]
fn unknown_id_reports_names() {
    let set = deploy_delete();
    match parse_command(&set, &toks(&["xyz"])) {
        Err(CommandParseError::BadId(IdParseError::NoMatch(given, names))) => {
            assert_eq!(given, "xyz");
            assert_eq!(names, vec!["deploy".to_string(), "delete".to_string()]);
        },
        other => panic!("expected no-match, got {:?}", other),
    }
}

#[test]
fn empty_input_is_no_input() {
    let set = deploy_only();
    assert_eq!(parse_command(&set, &toks(&[])), Err(CommandParseError::NoInput));
}

#[test]
fn duplicate_identifier_is_a_build_error() {
    let r = CommandSet::new(
        None,
        vec![
            cmd(&["`deploy` One."], vec![]),
            cmd(&["`(Deploy|dep)` Two."], vec![]),
        ],
    );
    assert_eq!(r.err(), Some(SpecError::DuplicateId("deploy".to_string())));
}

#[test]
fn arity_missing_required() {
    let set = arity_set();
    match parse_command(&set, &toks(&["cmd", "v1"])) {
        Err(CommandParseError::MissingRequired(an)) => {
            assert_eq!(an.cmd, "cmd");
            assert_eq!(an.arg, "b");
        },
        other => panic!("expected missing-required, got {:?}", other),
    }
}

#[test]
fn arity_optional_absent() {
    let set = arity_set();
    let v = parse_command(&set, &toks(&["cmd", "v1", "v2"])).unwrap();
    assert_eq!(v.fields.len(), 3);
    assert!(matches!(&v.fields[0], FieldValue::One(ArgValue::Text(s)) if s == "v1"));
    assert!(matches!(&v.fields[1], FieldValue::One(ArgValue::Text(s)) if s == "v2"));
    assert!(matches!(&v.fields[2], FieldValue::Missing));
}

#[test]
fn arity_optional_present() {
    let set = arity_set();
    let v = parse_command(&set, &toks(&["cmd", "v1", "v2", "v3"])).unwrap();
    assert!(matches!(&v.fields[2], FieldValue::One(ArgValue::Text(s)) if s == "v3"));
}

#[test]
fn arity_trailing_token() {
    let set = arity_set();
    match parse_command(&set, &toks(&["cmd", "v1", "v2", "v3", "v4"])) {
        Err(CommandParseError::Trailing(c, extra)) => {
            assert_eq!(c, "cmd");
            assert_eq!(extra, "v4");
        },
        other => panic!("expected trailing, got {:?}", other),
    }
}

/// A set with one command taking a required rest of numbers.
fn rest_set() -> CommandSet {
    CommandSet::new(
        None,
        vec![cmd(
            &["`sum <ns...>` Sum numbers.", "", "# Arguments", "ns: The numbers."],
            vec![nat_field()],
        )],
    )
    .unwrap()
}

#[test]
fn rest_required_empty_is_missing() {
    let set = rest_set();
    match parse_command(&set, &toks(&["sum"])) {
        Err(CommandParseError::MissingRequired(an)) => assert_eq!(an.arg, "ns"),
        other => panic!("expected missing-required, got {:?}", other),
    }
}

#[test]
fn rest_collects_every_token() {
    let set = rest_set();
    let v = parse_command(&set, &toks(&["sum", "1", "22", "333"])).unwrap();
    match &v.fields[0] {
        FieldValue::Many(vs) => {
            assert_eq!(vs.len(), 3);
            assert!(matches!(vs[0], ArgValue::Nat(1)));
            assert!(matches!(vs[1], ArgValue::Nat(22)));
            assert!(matches!(vs[2], ArgValue::Nat(333)));
        },
        other => panic!("expected collected rest, got {:?}", other),
    }
}

#[test]
fn rest_bad_token_names_it() {
    let set = rest_set();
    match parse_command(&set, &toks(&["sum", "1", "x", "3"])) {
        Err(CommandParseError::BadConvert(an, ConvertError::BadNumber(b))) => {
            assert_eq!(an.arg, "ns");
            assert_eq!(b, "x");
        },
        other => panic!("expected bad conversion, got {:?}", other),
    }
}

#[test]
fn numbers_parse_to_the_limit() {
    let set = rest_set();
    let v = parse_command(&set, &toks(&["sum", "18446744073709551615"])).unwrap();
    match &v.fields[0] {
        FieldValue::Many(vs) => assert!(matches!(vs[0], ArgValue::Nat(u64::MAX))),
        other => panic!("unexpected {:?}", other),
    }
    assert!(matches!(
        parse_command(&set, &toks(&["sum", "18446744073709551616"])),
        Err(CommandParseError::BadConvert(_, _))
    ));
}

/// An outer set whose `remote` command delegates to a nested set.
fn nested_set() -> CommandSet {
    let inner = CommandSet::new(
        None,
        vec![
            cmd(&["`add <name>` Add.", "", "# Arguments", "name: The name."], vec![text_field()]),
            cmd(&["`list` List."], vec![]),
        ],
    )
    .unwrap();
    let remote = CommandSpec::new(
        CommandOpts { subcommand: true },
        &lines(&["`remote <args...>` Remotes.", "", "# Arguments", "args: The subcommand."]),
        vec![text_field()],
        Some(Box::new(inner)),
    )
    .unwrap();
    CommandSet::new(None, vec![remote, cmd(&["`status` Status."], vec![])]).unwrap()
}

#[test]
fn subcommand_delegates_remaining_tokens() {
    let set = nested_set();
    let v = parse_command(&set, &toks(&["remote", "add", "origin"])).unwrap();
    assert_eq!(v.id, 0);
    match &v.fields[0] {
        FieldValue::Sub(inner) => {
            assert_eq!(inner.id, 0);
            assert!(matches!(&inner.fields[0], FieldValue::One(ArgValue::Text(s)) if s == "origin"));
        },
        other => panic!("expected nested value, got {:?}", other),
    }
}

#[test]
fn subcommand_error_is_wrapped() {
    let set = nested_set();
    match parse_command(&set, &toks(&["remote"])) {
        Err(CommandParseError::Subcommand(c, inner)) => {
            assert_eq!(c, "remote");
            assert!(matches!(*inner, CommandParseError::NoInput));
        },
        other => panic!("expected wrapped subcommand error, got {:?}", other),
    }
}

#[test]
fn path_addresses_nested_commands() {
    let set = nested_set();
    let p = parse_path(&set, &toks(&["remote", "add"]), 0).unwrap();
    assert_eq!(p.head, 0);
    assert_eq!(p.sub.as_ref().map(|b| b.head), Some(0));
    let p = parse_path(&set, &toks(&["status"]), 0).unwrap();
    assert_eq!(p.head, 1);
    assert!(p.sub.is_none());
}

#[test]
fn path_errors() {
    let set = nested_set();
    match parse_path(&set, &toks(&[]), 0) {
        Err(PathParseError::Incomplete(names)) => {
            assert_eq!(names, vec!["remote".to_string(), "status".to_string()]);
        },
        other => panic!("expected incomplete, got {:?}", other),
    }
    assert!(matches!(
        parse_path(&set, &toks(&["status", "extra"]), 0),
        Err(PathParseError::Trailing(x)) if x == "extra"
    ));
    assert!(matches!(
        parse_path(&set, &toks(&["nope"]), 0),
        Err(PathParseError::BadId(_))
    ));
}

#[test]
fn help_root_topic_is_the_set() {
    let set = nested_set();
    match help(&set, None) {
        HelpTopic::CommandSet(summary, usages) => {
            assert!(summary.is_none());
            assert_eq!(usages.len(), 2);
            assert_eq!(usages[0].ids, vec!["remote".to_string()]);
        },
        other => panic!("expected set topic, got {:?}", other),
    }
}

#[test]
fn help_command_topic_carries_its_ids() {
    let set = deploy_delete();
    let p = docbot::engine::CommandPath { head: 1, sub: None };
    match help(&set, Some(&p)) {
        HelpTopic::Command(usage, _) => {
            assert_eq!(usage.ids, vec!["delete".to_string()]);
        },
        other => panic!("expected command topic, got {:?}", other),
    }
}

#[test]
fn help_recurses_into_subcommands() {
    let set = nested_set();
    let p = docbot::engine::CommandPath {
        head: 0,
        sub: Some(Box::new(docbot::engine::CommandPath { head: 1, sub: None })),
    };
    match help(&set, Some(&p)) {
        HelpTopic::Command(usage, _) => {
            assert_eq!(usage.ids, vec!["list".to_string()]);
        },
        other => panic!("expected nested command topic, got {:?}", other),
    }
}

#[test]
fn end_to_end_push() {
    let set = CommandSet::new(
        None,
        vec![cmd(
            &[
                "`push <branch> [--force]` Push a branch.",
                "",
                "# Arguments",
                "branch: The branch to push.",
                "--force: Whether to force.",
            ],
            vec![text_field(), text_field()],
        )],
    )
    .unwrap();
    let v: CommandValue = parse_command(&set, &toks(&["push", "main"])).unwrap();
    assert!(matches!(&v.fields[0], FieldValue::One(ArgValue::Text(s)) if s == "main"));
    assert!(matches!(&v.fields[1], FieldValue::Missing));
    let v = parse_command(&set, &toks(&["push", "main", "yes"])).unwrap();
    assert!(matches!(&v.fields[1], FieldValue::One(ArgValue::Text(s)) if s == "yes"));
    match parse_command(&set, &toks(&["push"])) {
        Err(CommandParseError::MissingRequired(an)) => {
            assert_eq!(an.cmd, "push");
            assert_eq!(an.arg, "branch");
        },
        other => panic!("expected missing branch, got {:?}", other),
    }
}

#[test]
fn field_count_must_match_usage() {
    let r = CommandSpec::new(
        CommandOpts::no_opts(),
        &lines(&["`c <a>` d.", "", "# Arguments", "a: First."]),
        vec![],
        None,
    );
    assert_eq!(r.err(), Some(SpecError::FieldCountMismatch));
}

#[test]
fn subcommand_shape_is_validated() {
    // A subcommand must be a single rest field with its nested set.
    let r = CommandSpec::new(
        CommandOpts { subcommand: true },
        &lines(&["`r <a>` d.", "", "# Arguments", "a: First."]),
        vec![text_field()],
        None,
    );
    assert_eq!(r.err(), Some(SpecError::InvalidSubcommand));
}

#[test]
fn path_field_must_be_rest() {
    let r = CommandSpec::new(
        CommandOpts::no_opts(),
        &lines(&["`c <a>` d.", "", "# Arguments", "a: First."]),
        vec![FieldDecl { opts: FieldOpts { path: true }, conv: ConvKind::Text }],
        None,
    );
    assert_eq!(r.err(), Some(SpecError::InvalidPathField("a".to_string())));
}

/// A set whose `goto` command takes the rest of the tokens as a path
/// into a nested set.
fn path_field_set() -> CommandSet {
    let inner = CommandSet::new(
        None,
        vec![cmd(&["`alpha` A."], vec![]), cmd(&["`beta` B."], vec![])],
    )
    .unwrap();
    let goto = CommandSpec::new(
        CommandOpts::no_opts(),
        &lines(&["`goto [where...]` Go.", "", "# Arguments", "where: The target."]),
        vec![FieldDecl { opts: FieldOpts { path: true }, conv: ConvKind::Text }],
        Some(Box::new(inner)),
    )
    .unwrap();
    CommandSet::new(None, vec![goto]).unwrap()
}

#[test]
fn path_field_parses_a_path() {
    let set = path_field_set();
    let v = parse_command(&set, &toks(&["goto", "beta"])).unwrap();
    match &v.fields[0] {
        FieldValue::PathVal(Some(p)) => assert_eq!(p.head, 1),
        other => panic!("expected a path value, got {:?}", other),
    }
    // An optional path rest with no tokens is simply absent.
    let v = parse_command(&set, &toks(&["goto"])).unwrap();
    assert!(matches!(&v.fields[0], FieldValue::PathVal(None)));
}

#[test]
fn path_field_failure_is_a_conversion_error() {
    let set = path_field_set();
    match parse_command(&set, &toks(&["goto", "nope"])) {
        Err(CommandParseError::BadConvert(an, ConvertError::BadPath(pe))) => {
            assert_eq!(an.arg, "where");
            assert!(matches!(pe, PathParseError::BadId(_)));
        },
        other => panic!("expected a path conversion error, got {:?}", other),
    }
}

#[test]
fn optional_rest_may_be_empty() {
    let set = CommandSet::new(
        None,
        vec![cmd(
            &["`ls [paths...]` List.", "", "# Arguments", "paths: The paths."],
            vec![text_field()],
        )],
    )
    .unwrap();
    let v = parse_command(&set, &toks(&["ls"])).unwrap();
    match &v.fields[0] {
        FieldValue::Many(vs) => assert_eq!(vs.len(), 0),
        other => panic!("expected empty rest, got {:?}", other),
    }
}

#[test]
fn set_docs_feed_the_root_topic() {
    let set = CommandSet::new(
        Some(&lines(&["My toolbox."])),
        vec![cmd(&["`a` A."], vec![])],
    )
    .unwrap();
    match help(&set, None) {
        HelpTopic::CommandSet(summary, _) => {
            assert_eq!(summary.as_deref(), Some("My toolbox."));
        },
        other => panic!("expected set topic, got {:?}", other),
    }
}
