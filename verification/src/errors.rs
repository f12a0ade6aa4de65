//! The error taxonomy: specification-construction errors (fatal at
//! spec-load time) and the structured identifier / path / command parse
//! errors returned to callers at runtime.
use vstd::prelude::*;

verus! {

/// Fatal error raised while building a command specification from its
/// documentation text.  Such an error prevents the engine from being
/// constructed at all.
#[derive(Debug, Clone, PartialEq, Eq)]
pub enum SpecError {
    /// The usage paragraph is not of the form `` `<usage>` <description> ``.
    InvalidUsageParagraph,
    /// The usage tokens do not begin with a valid command ID specifier.
    InvalidIdSpecifier,
    /// Content remained after the usage grammar was consumed.
    TrailingUsage(String),
    /// A documentation paragraph after the first does not start with a
    /// `# <marker>` header line.
    MissingHeader,
    /// More than one summary section was found.
    MultipleSummaries,
    /// More than one arguments section was found.
    MultipleArgumentSections,
    /// More than one examples section was found.
    MultipleExamples,
    /// The same argument name was documented twice.
    DuplicateArgDoc(String),
    /// A non-empty arguments block yielded no entries at all.
    UnexpectedArgFormat,
    /// A declared argument lacks documentation; carries the missing name
    /// and the names that were documented.
    MissingArgDoc(String, Vec<String>),
    /// The number of documented arguments does not match the number the
    /// usage line declares (expected, found).
    ArgCountMismatch(usize, usize),
    /// The short description after the usage tokens is empty.
    MissingDescription,
    /// A command has no documentation at all.
    MissingDocs,
    /// Two identifiers of one command set normalise to the same string.
    DuplicateId(String),
    /// The number of declared fields does not match the number of
    /// arguments in the usage line.
    FieldCountMismatch,
    /// A subcommand must consist of a single rest field that is not a
    /// path field.
    InvalidSubcommand,
    /// A path field must be a rest field; carries the offending name.
    InvalidPathField(String),
}

/// Failure to resolve an identifier token against the declared names.
#[derive(Debug, Clone, PartialEq, Eq)]
pub enum IdParseError {
    /// No identifier matched the given string; carries the input and all
    /// valid names.
    NoMatch(String, Vec<String>),
    /// More than one identifier could match the given string; carries the
    /// candidate names and the input.
    Ambiguous(Vec<String>, String),
}

/// Failure to parse a command path.
#[derive(Debug, Clone, PartialEq, Eq)]
pub enum PathParseError {
    /// The token stream ended where a path component was expected;
    /// carries all valid names.
    Incomplete(Vec<String>),
    /// The head token did not resolve to an identifier.
    BadId(IdParseError),
    /// A token remained after a non-subcommand path component.
    Trailing(String),
}

/// Names an argument of a command in diagnostics.
#[derive(Debug, Clone, PartialEq, Eq)]
pub struct ArgumentName {
    /// The canonical identifier of the command.
    pub cmd: String,
    /// The name of the argument.
    pub arg: String,
}

/// Failure to convert one token into an argument value.
#[derive(Debug, Clone, PartialEq, Eq)]
pub enum ConvertError {
    /// The token is not a decimal number that fits the numeric field.
    BadNumber(String),
    /// A path-valued rest field failed to parse.
    BadPath(PathParseError),
}

/// Failure to parse a token stream as a command.
#[derive(Debug, PartialEq, Eq)]
pub enum CommandParseError {
    /// The token stream was empty.
    NoInput,
    /// The head token did not resolve to a command identifier.
    BadId(IdParseError),
    /// A required argument was missing.
    MissingRequired(ArgumentName),
    /// An argument token could not be converted to the field's value.
    BadConvert(ArgumentName, ConvertError),
    /// A token remained after all declared arguments were consumed;
    /// carries the canonical command identifier and the extra token.
    Trailing(String, String),
    /// A subcommand failed to parse; carries the canonical identifier of
    /// the outer command and the inner error, unmodified.
    Subcommand(String, Box<CommandParseError>),
}

/// Ghost mirror of [`SpecError`], over character sequences.
pub enum SpecErrorForm {
    BadParagraphF,
    BadIdClauseF,
    TrailingUsageF(Seq<char>),
    MissingHeaderF,
    MultipleSummariesF,
    MultipleArgumentSectionsF,
    MultipleExamplesF,
    DuplicateArgDocF(Seq<char>),
    UnexpectedArgFormatF,
    MissingArgDocF(Seq<char>, Seq<Seq<char>>),
    ArgCountMismatchF(int, int),
    MissingDescriptionF,
    MissingDocsF,
    DuplicateIdF(Seq<char>),
    FieldCountMismatchF,
    InvalidSubcommandF,
    InvalidPathFieldF(Seq<char>),
}

/// Whether the executable error `e` carries exactly the ghost form `f`.
pub open spec fn spec_err_is(e: &SpecError, f: SpecErrorForm) -> bool {
    match f {
        SpecErrorForm::BadParagraphF => e is InvalidUsageParagraph,
        SpecErrorForm::BadIdClauseF => e is InvalidIdSpecifier,
        SpecErrorForm::TrailingUsageF(t) => e matches SpecError::TrailingUsage(s) && s@ == t,
        SpecErrorForm::MissingHeaderF => e is MissingHeader,
        SpecErrorForm::MultipleSummariesF => e is MultipleSummaries,
        SpecErrorForm::MultipleArgumentSectionsF => e is MultipleArgumentSections,
        SpecErrorForm::MultipleExamplesF => e is MultipleExamples,
        SpecErrorForm::DuplicateArgDocF(n) => e matches SpecError::DuplicateArgDoc(s) && s@ == n,
        SpecErrorForm::UnexpectedArgFormatF => e is UnexpectedArgFormat,
        SpecErrorForm::MissingArgDocF(n, have) => e matches SpecError::MissingArgDoc(s, h)
            && s@ == n && h.deep_view() == have,
        SpecErrorForm::ArgCountMismatchF(a, b) => e matches SpecError::ArgCountMismatch(x, y)
            && x as int == a && y as int == b,
        SpecErrorForm::MissingDescriptionF => e is MissingDescription,
        SpecErrorForm::MissingDocsF => e is MissingDocs,
        SpecErrorForm::DuplicateIdF(n) => e matches SpecError::DuplicateId(s) && s@ == n,
        SpecErrorForm::FieldCountMismatchF => e is FieldCountMismatch,
        SpecErrorForm::InvalidSubcommandF => e is InvalidSubcommand,
        SpecErrorForm::InvalidPathFieldF(n) => e matches SpecError::InvalidPathField(s) && s@ == n,
    }
}

} // verus!
