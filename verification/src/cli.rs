//! What a command comes to, given the text of its input.

use vstd::prelude::*;
use vstd::string::StringSliceAdditionalSpecFns;
use vstd::utf8::{encode_utf8_valid_utf8, is_char_boundary_start_end_of_seq};
use crate::cli_args::{Command, Input};
use crate::formatter::{format_text, Formatter};
use crate::grammar::scan_result;
use crate::minifier::{minify_text, Minifier};
use crate::node::{Node, Tree};
use crate::parser::{explains, parse_result, tree_of, Parser};
use crate::parser_error::ParserError;
use crate::scanner::{describes, lemma_scanned_tokens_fit, Scanner};
use crate::scanner_error::ScannerError;

verus! {

/// Why a command has no outcome: its source is no sequence of tokens, or
/// its tokens are no JSON value.
#[derive(Debug, PartialEq)]
pub enum Refusal {
    Scanner(ScannerError),
    Parser(ParserError),
}

impl Refusal {
    /// The refusal in words: those of the error it holds.
    pub open spec fn message(self) -> Seq<char> {
        match self {
            Refusal::Scanner(error) => error.message(),
            Refusal::Parser(error) => error.message(),
        }
    }

    pub fn to_string(&self) -> (shown: String)
        ensures
            shown@ == self.message(),
    {
        match self {
            Refusal::Scanner(error) => error.to_string(),
            Refusal::Parser(error) => error.to_string(),
        }
    }
}

/// What a command comes to: the text to write out, and the text that is to
/// replace the content of the file the source came from, if any is.
#[derive(Debug, PartialEq)]
pub struct Outcome {
    pub output: String,
    pub file: Option<String>,
}

/// Whether `refusal` tells why the source has no tree.
pub open spec fn refuses(source: Seq<u8>, refusal: Refusal) -> bool {
    match scan_result(source) {
        Ok(tokens) => refusal matches Refusal::Parser(error) && parse_result(source, tokens, 0)
            matches Err(mismatch) && explains(source, tokens, mismatch, error),
        Err(failure) => refusal matches Refusal::Scanner(error) && describes(
            source,
            failure,
            error,
        ),
    }
}

/// Whether output may replace the content of the file that the input
/// names.
pub open spec fn overrides(input: Input) -> bool {
    input matches Input::File { prevent_override, .. } && !prevent_override
}

/// Whether the command renders its source and its output replaces the
/// content of the file that the source came from.
pub open spec fn replaces_file(command: Command) -> bool {
    !(command is Parse) && overrides(command.spec_input())
}

/// Whether the command only asks if its source is valid.
pub open spec fn asks_validity(command: Command) -> bool {
    command matches Command::Parse { verify, prevent_write, .. } && verify && !prevent_write
}

/// The text that the command writes out for a source with the given tree.
pub open spec fn output_text(command: Command, source: Seq<char>, tree: Tree) -> Seq<char> {
    match command {
        Command::Parse { verify, prevent_write, .. } => if verify && !prevent_write {
            "true"@
        } else if prevent_write {
            "Parse successful"@
        } else {
            source
        },
        Command::Format { spacing, prevent_write, .. } => if prevent_write {
            "Format successful"@
        } else {
            rendered(command, tree)
        },
        Command::Minify { prevent_write, .. } => if prevent_write {
            "Minify successful"@
        } else {
            rendered(command, tree)
        },
    }
}

/// The tree as the command renders it: formatted or minified.
pub open spec fn rendered(command: Command, tree: Tree) -> Seq<char> {
    match command {
        Command::Format { spacing, .. } => format_text(
            tree,
            match spacing {
                Some(space) => space as nat,
                None => 4,
            },
            0,
        ),
        _ => minify_text(tree),
    }
}

/// Carries out commands on sources.
pub struct Cli;

impl Cli {
    /// Scans and parses `source`.
    fn tree<'source>(&self, source: &'source str) -> (result: Result<
        Node<'source>,
        Refusal,
    >)
        requires
            source.spec_bytes().len() < usize::MAX,
        ensures
            match result {
                Ok(node) => tree_of(source.spec_bytes()) == Some(node@),
                Err(refusal) => tree_of(source.spec_bytes()) is None && refuses(
                    source.spec_bytes(),
                    refusal,
                ),
            },
    {
        let mut scanner = Scanner::new(source);
        let tokens = match scanner.scan() {
            Ok(tokens) => tokens,
            Err(error) => return Err(Refusal::Scanner(error)),
        };
        proof {
            broadcast use encode_utf8_valid_utf8;

            is_char_boundary_start_end_of_seq(source.spec_bytes());
            lemma_scanned_tokens_fit(source.spec_bytes(), 0);
        }
        let mut parser = Parser::new(source, tokens);
        match parser.parse() {
            Ok(node) => Ok(node),
            Err(error) => Err(Refusal::Parser(error)),
        }
    }

    /// Carries out `command` on `source`, the text that its input holds.
    ///
    /// A source that is no JSON value is refused with the error of the
    /// scanner or of the parser; only a command that asks whether the
    /// source is valid, and may write, answers `false` instead. Otherwise
    /// the outcome holds what is to be written out: the source itself, the
    /// formatted or the minified text, or a word of success where the
    /// command prevents writing. Formatted and minified text replaces the
    /// content of the file it came from, unless the input prevents that.
    pub fn process_command(&self, command: &Command, source: &str) -> (result: Result<
        Outcome,
        Refusal,
    >)
        requires
            source.spec_bytes().len() < usize::MAX,
        ensures
            match scan_result(source.spec_bytes()) {
                Ok(tokens) => match parse_result(source.spec_bytes(), tokens, 0) {
                    Ok(tree) => result matches Ok(outcome) && outcome.output@ == output_text(
                        *command,
                        source@,
                        tree,
                    ) && outcome.file.is_some() == replaces_file(*command) && (
                    outcome.file matches Some(text) ==> text@ == rendered(*command, tree)),
                    Err(mismatch) => if asks_validity(*command) {
                        result matches Ok(outcome) && outcome.output@ == "false"@
                            && outcome.file is None
                    } else {
                        result matches Err(Refusal::Parser(error)) && explains(
                            source.spec_bytes(),
                            tokens,
                            mismatch,
                            error,
                        )
                    },
                },
                Err(failure) => result matches Err(Refusal::Scanner(error)) && describes(
                    source.spec_bytes(),
                    failure,
                    error,
                ),
            },
    {
        match command {
            Command::Parse { verify, prevent_write, input } => {
                let mut scanner = Scanner::new(source);
                let tokens = match scanner.scan() {
                    Ok(tokens) => tokens,
                    Err(error) => return Err(Refusal::Scanner(error)),
                };
                proof {
                    broadcast use encode_utf8_valid_utf8;

                    is_char_boundary_start_end_of_seq(source.spec_bytes());
                    lemma_scanned_tokens_fit(source.spec_bytes(), 0);
                }
                let mut parser = Parser::new(source, tokens);
                if *verify && !*prevent_write {
                    let output = if parser.is_valid() {
                        String::from_str("true")
                    } else {
                        String::from_str("false")
                    };
                    return Ok(Outcome { output, file: None });
                }
                match parser.parse() {
                    Ok(_) => {},
                    Err(error) => return Err(Refusal::Parser(error)),
                }
                if *prevent_write {
                    return Ok(Outcome { output: String::from_str("Parse successful"), file: None });
                }
                Ok(Outcome { output: String::from_str(source), file: None })
            },
            Command::Format { prevent_write, spacing, input } => {
                let ast = match self.tree(source) {
                    Ok(ast) => ast,
                    Err(refusal) => return Err(refusal),
                };
                let formatter = match spacing {
                    Some(space) => Formatter::new(*space as usize),
                    None => Formatter::default(),
                };
                let json = formatter.format(ast);
                Ok(self.rendering(input, *prevent_write, json, "Format successful"))
            },
            Command::Minify { prevent_write, input } => {
                let ast = match self.tree(source) {
                    Ok(ast) => ast,
                    Err(refusal) => return Err(refusal),
                };
                let minifier = Minifier;
                let json = minifier.minify(&ast);
                Ok(self.rendering(input, *prevent_write, json, "Minify successful"))
            },
        }
    }

    /// The outcome of a command that has rendered `json`: the text goes to
    /// the file of the input unless the input prevents that, and is written
    /// out unless the command prevents that and says `success` instead.
    fn rendering(&self, input: &Input, prevent_write: bool, json: String, success: &str) -> (outcome:
        Outcome)
        ensures
            outcome.output@ == if prevent_write {
                success@
            } else {
                json@
            },
            match outcome.file {
                Some(text) => overrides(*input) && text@ == json@,
                None => !overrides(*input),
            },
    {
        let file = match input {
            Input::File { prevent_override, .. } => if *prevent_override {
                None
            } else {
                Some(json.clone())
            },
            Input::Text { .. } => None,
        };
        let output = if prevent_write {
            String::from_str(success)
        } else {
            json
        };
        Outcome { output, file }
    }
}

} // verus!
