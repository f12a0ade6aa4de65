//! Tests for tokenization, suggestions, and the reference renderers.
use docbot::did_you_mean::did_you_mean;
use docbot::errors::{ArgumentName, CommandParseError, ConvertError, IdParseError};
use docbot::fold_error::{fold_command_parse, SimpleFoldError};
use docbot::fold_help::{fold_topic, SimpleFoldHelp};
use docbot::help::{ArgumentUsage, CommandDesc, CommandUsage, HelpTopic};
use docbot::tokenize::tokenize_str_simple;

fn strs(v: &[&str]) -> Vec<String> {
    v.iter().map(|s| s.to_string()).collect()
}

#[test]
fn tokenize_plain_words() {
    assert_eq!(tokenize_str_simple("  a  bc d "), strs(&["a", "bc", "d"]));
    assert_eq!(tokenize_str_simple(""), strs(&[]));
}

#[test]
fn tokenize_single_quotes() {
    assert_eq!(
        tokenize_str_simple("a 'b c' d"),
        strs(&["a", "b c", "d"])
    );
    assert_eq!(tokenize_str_simple("''"), strs(&[""]));
}

#[test]
fn tokenize_double_quotes_with_escapes() {
    assert_eq!(
        tokenize_str_simple("say \"he said \\\"hi\\\"\""),
        strs(&["say", "he said \"hi\""])
    );
}

#[test]
fn tokenize_unclosed_quote_is_skipped() {
    assert_eq!(tokenize_str_simple("'abc"), strs(&["abc"]));
    assert_eq!(tokenize_str_simple("\"abc"), strs(&["abc"]));
}

#[test]
fn tokenize_quotes_end_tokens() {
    assert_eq!(tokenize_str_simple("'a'b"), strs(&["a", "b"]));
    assert_eq!(tokenize_str_simple("ab'cd"), strs(&["ab'cd"]));
}

#[test]
fn suggestions_keep_and_rank() {
    // "dep" and "del" are both one edit from "de"; "pus" is three.
    let r = did_you_mean("de", &strs(&["deploy", "delete", "push"]));
    assert_eq!(r, strs(&["delete", "deploy"]));
}

#[test]
fn suggestions_rank_by_distance() {
    // An exact match outranks a distant one; if the distances were
    // not computed, the lexicographic tie-break would flip the order.
    let r = did_you_mean("deploy", &strs(&["deploy", "delete"]));
    assert_eq!(r, strs(&["deploy", "delete"]));
}

#[test]
fn render_missing_required() {
    let e = CommandParseError::MissingRequired(ArgumentName {
        cmd: "push".to_string(),
        arg: "branch".to_string(),
    });
    let s = SimpleFoldError.render_cmd_err(&e);
    assert_eq!(s, "Missing required argument 'branch' to command 'push'");
    assert_eq!(fold_command_parse(&SimpleFoldError, &e), s);
}

#[test]
fn render_no_match_with_suggestions() {
    let e = CommandParseError::BadId(IdParseError::NoMatch(
        "de".to_string(),
        strs(&["deploy", "delete"]),
    ));
    let s = SimpleFoldError.render_cmd_err(&e);
    assert_eq!(
        s,
        "Not sure what you mean by 'de'.  Did you mean: 'delete', 'deploy'"
    );
}

#[test]
fn render_no_match_without_suggestions() {
    let e = CommandParseError::BadId(IdParseError::NoMatch(
        "zzzzzzzz".to_string(),
        strs(&["a"]),
    ));
    let s = SimpleFoldError.render_cmd_err(&e);
    assert_eq!(
        s,
        "Not sure what you mean by 'zzzzzzzz'.  Available options are: 'a'"
    );
}

#[test]
fn render_ambiguous() {
    let e = CommandParseError::BadId(IdParseError::Ambiguous(
        strs(&["deploy", "delete"]),
        "de".to_string(),
    ));
    assert_eq!(
        SimpleFoldError.render_cmd_err(&e),
        "Not sure what you mean by 'de'.  Could be: 'deploy', 'delete'"
    );
}

#[test]
fn render_nested_errors() {
    let inner = CommandParseError::BadConvert(
        ArgumentName { cmd: "sum".to_string(), arg: "ns".to_string() },
        ConvertError::BadNumber("x".to_string()),
    );
    let e = CommandParseError::Subcommand("math".to_string(), Box::new(inner));
    assert_eq!(
        SimpleFoldError.render_cmd_err(&e),
        "Subcommand 'math' failed: Couldn't parse argument 'ns' of command 'sum': not a number: 'x'"
    );
}

#[test]
fn render_command_ids() {
    assert_eq!(
        SimpleFoldHelp::write_command_ids(&strs(&["deploy", "dep"])),
        "(deploy|dep)"
    );
    assert_eq!(SimpleFoldHelp::write_command_ids(&strs(&["push"])), "push");
    assert_eq!(
        SimpleFoldHelp::write_command_ids(&strs(&["two words"])),
        "(two words)"
    );
}

#[test]
fn render_command_topic() {
    let topic = HelpTopic::Command(
        CommandUsage {
            ids: strs(&["push"]),
            args: vec![
                ArgumentUsage {
                    name: "branch".to_string(),
                    is_required: true,
                    is_rest: false,
                },
                ArgumentUsage {
                    name: "--force".to_string(),
                    is_required: false,
                    is_rest: false,
                },
            ],
            desc: "Push a branch.".to_string(),
        },
        CommandDesc { summary: None, args: vec![], examples: None },
    );
    let s = fold_topic(&SimpleFoldHelp, &topic);
    assert_eq!(s, "USAGE: push <branch> [--force]\nPush a branch.");
}

#[test]
fn render_set_topic() {
    let topic = HelpTopic::CommandSet(
        Some("Tools.".to_string()),
        vec![CommandUsage { ids: strs(&["a"]), args: vec![], desc: "A.".to_string() }],
    );
    let s = fold_topic(&SimpleFoldHelp, &topic);
    assert_eq!(s, "Tools.\n\nCOMMANDS\n  a: A.");
}
