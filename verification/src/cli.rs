//! The command line: its commands and their arguments.

use crate::text;
use vstd::prelude::*;

verus! {

/// A command line.
#[derive(Debug)]
pub struct Cli {
    pub command: Command,
    /// Capture diagnostics in a temporary file and print its path on error.
    pub capture_diagnostics: bool,
}

/// A command.
#[derive(Debug)]
pub enum Command {
    /// Verify and store the key of the service.
    Login,
    /// Delete the stored key.
    Logout,
    /// Ask one yes/no probability question; the answer id is "q".
    Noul(NoulArgs),
    /// Pick one option from a set; the answer id is "q".
    Choice(ChoiceArgs),
    /// Rate the state along ordered levels; the answer id is "q".
    Score(ScoreArgs),
    /// Evaluate one request from a file, standard input, or a preset.
    Ask(AskArgs),
    /// Evaluate a request template over many inputs, concurrently.
    MapInputs(MapArgs),
    /// List, show, and validate presets, without asking the service.
    Presets(PresetsArgs),
}

/// The arguments of a yes/no question.
#[derive(Debug)]
pub struct NoulArgs {
    pub question: String,
    /// What a yes means.
    pub yes: Option<String>,
    /// What a no means.
    pub no: Option<String>,
    pub single: SingleArgs,
}

/// The arguments of a choice.
#[derive(Debug)]
pub struct ChoiceArgs {
    pub question: String,
    /// The options and their descriptions.
    pub opts: Vec<(String, String)>,
    pub single: SingleArgs,
}

/// The arguments of a score.
#[derive(Debug)]
pub struct ScoreArgs {
    pub question: String,
    /// The levels, lowest first.
    pub levels: Vec<String>,
    pub single: SingleArgs,
}

/// The arguments of every question.
#[derive(Debug)]
pub struct SingleArgs {
    /// The state: literal text, `@PATH`, or `@-`.
    pub state: Option<String>,
    /// The assertion.
    pub assert: Option<String>,
}

/// The arguments of a request.
#[derive(Debug)]
pub struct AskArgs {
    /// The request file, or `-`.
    pub request: Option<String>,
    /// The preset.
    pub preset: Option<String>,
    /// The state that goes before that of the request.
    pub state: Option<String>,
    /// The parameters: `NAME=VALUE`, `NAME=@PATH` or `NAME=@-`.
    pub params: Vec<String>,
    /// The assertion that goes before that of the template.
    pub assert: Option<String>,
}

/// The arguments of a batch.
#[derive(Debug)]
pub struct MapArgs {
    /// The template file, or `-`.
    pub request: Option<String>,
    /// The preset.
    pub preset: Option<String>,
    /// The input file, or `-`.
    pub input: String,
    /// What an input line is.
    pub each: Each,
    /// How many requests are under way at a time.
    pub concurrency: u32,
    /// Where results are written as they complete.
    pub out: Option<String>,
    /// Skip the rows that are already completed in the results.
    pub resume: bool,
    /// The parameters.
    pub params: Vec<String>,
    /// The assertion that goes before that of the template.
    pub assert: Option<String>,
}

/// What an input line is.
#[derive(Clone, Copy, Debug, PartialEq, Eq, Structural)]
pub enum Each {
    /// The state, as any JSON value.
    State,
    /// A complete request body.
    Request,
    /// The state, as a plain string.
    Text,
}

/// The arguments on presets.
#[derive(Debug)]
pub struct PresetsArgs {
    pub command: PresetsCommand,
}

/// What to do with presets.
#[derive(Debug)]
pub enum PresetsCommand {
    /// List the presets with their descriptions.
    List,
    /// Print a preset.
    Show { name: String },
    /// Validate a preset or a file, or every preset.
    Validate { target: Option<String> },
}

/// An option: its key and its description, neither of them empty.
pub open spec fn option_of(spec_text: Seq<char>) -> Result<(Seq<char>, Seq<char>), Seq<char>> {
    match text::halves(spec_text, '=') {
        Some((key, value)) => if key.len() > 0 && value.len() > 0 {
            Ok((key, value))
        } else {
            Err("expected KEY=DESCRIPTION, got '"@ + spec_text + "'"@)
        },
        None => Err("expected KEY=DESCRIPTION, got '"@ + spec_text + "'"@),
    }
}

fn bad_option(spec_text: &str) -> (r: String)
    ensures
        r@ == "expected KEY=DESCRIPTION, got '"@ + spec_text@ + "'"@,
{
    let mut message = "expected KEY=DESCRIPTION, got '".to_owned();
    message.append(spec_text);
    message.append("'");
    message
}

/// Reads an option, `KEY=DESCRIPTION`.
pub fn parse_opt(spec_text: &str) -> (r: Result<(String, String), String>)
    ensures
        match r {
            Ok((key, value)) => option_of(spec_text@) == Ok::<(Seq<char>, Seq<char>), Seq<char>>(
                (key@, value@),
            ),
            Err(e) => option_of(spec_text@) == Err::<(Seq<char>, Seq<char>), Seq<char>>(e@),
        },
{
    match text::split_once(spec_text, '=') {
        None => Err(bad_option(spec_text)),
        Some((key, value)) => {
            let no_key = key.as_str().is_empty();
            let no_value = value.as_str().is_empty();
            assert(no_key == (key@.len() == 0));
            assert(no_value == (value@.len() == 0));
            if no_key || no_value {
                Err(bad_option(spec_text))
            } else {
                Ok((key, value))
            }
        },
    }
}

/// An option is a key, an equals sign and a description: neither side is empty,
/// and the key holds no equals sign. Nothing else is an option.
pub proof fn law_options_split(spec_text: Seq<char>, key: Seq<char>, value: Seq<char>)
    ensures
        option_of(spec_text) == Ok::<(Seq<char>, Seq<char>), Seq<char>>((key, value)) <==> spec_text
            == key + seq!['='] + value && key.len() > 0 && value.len() > 0 && !key.contains('='),
{
    text::law_halves(spec_text, '=', key, value);
}

/// What is no option is told.
pub proof fn law_bad_options_are_told(spec_text: Seq<char>)
    ensures
        option_of(spec_text) matches Err(e) ==> e == "expected KEY=DESCRIPTION, got '"@ + spec_text
            + "'"@,
{
}

} // verus!
