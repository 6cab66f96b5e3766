use jtools::cli::{Cli, Outcome, Refusal};
use jtools::cli_args::{CliArgs, Command, Input};
use jtools::parser_error::ParserError;
use jtools::scanner_error::ScannerError;

fn text(input: &str) -> Input {
    Input::Text {
        input: input.to_string(),
    }
}

fn file(prevent_override: bool) -> Input {
    Input::File {
        path: "data.json".to_string(),
        prevent_override,
    }
}

fn shown(output: &str) -> Result<Outcome, Refusal> {
    Ok(Outcome {
        output: output.to_string(),
        file: None,
    })
}

#[test]
fn command_knows_its_input() {
    let args = CliArgs {
        command: Command::Format {
            spacing: Some(8),
            prevent_write: false,
            input: file(false),
        },
    };

    assert_eq!(&file(false), args.command.input());
    assert_eq!(
        &text("[]"),
        Command::Minify {
            prevent_write: true,
            input: text("[]")
        }
        .input()
    );
    assert_eq!(
        &file(true),
        Command::Parse {
            verify: true,
            prevent_write: true,
            input: file(true)
        }
        .input()
    );
}

#[test]
fn parse_hands_the_source_back() {
    let command = Command::Parse {
        verify: false,
        prevent_write: false,
        input: text("[ 1 ]"),
    };

    assert_eq!(shown("[ 1 ]"), Cli.process_command(&command, "[ 1 ]"));
}

#[test]
fn parse_says_whether_the_source_is_valid() {
    let command = Command::Parse {
        verify: true,
        prevent_write: false,
        input: text(""),
    };

    assert_eq!(shown("true"), Cli.process_command(&command, "[1]"));
    assert_eq!(shown("false"), Cli.process_command(&command, "[1"));
    assert_eq!(
        Err(Refusal::Scanner(ScannerError::UnknownCharacter {
            error: "\n  |\n  |\n1 |[@\n  | ^---Column=2\n  |".to_string()
        })),
        Cli.process_command(&command, "[@")
    );
}

#[test]
fn parse_without_writing_says_that_it_went_well() {
    for verify in [true, false] {
        let command = Command::Parse {
            verify,
            prevent_write: true,
            input: file(false),
        };

        assert_eq!(
            shown("Parse successful"),
            Cli.process_command(&command, "[1]")
        );
        assert_eq!(
            Err(Refusal::Parser(ParserError::UnexpectedToken {
                expected: "Expected array to be terminated".to_string(),
                found: "eof".to_string(),
                error_preview: "\n  |\n  |\n1 |[1\n  |  ^---Column=3\n  |".to_string(),
            })),
            Cli.process_command(&command, "[1")
        );
    }
}

#[test]
fn format_uses_the_spacing_or_four_spaces() {
    let command = Command::Format {
        spacing: Some(1),
        prevent_write: false,
        input: text(""),
    };
    assert_eq!(shown("[\n 1\n]"), Cli.process_command(&command, "[1]"));

    let command = Command::Format {
        spacing: None,
        prevent_write: false,
        input: text(""),
    };
    assert_eq!(shown("[\n    1\n]"), Cli.process_command(&command, "[1]"));
}

#[test]
fn format_and_minify_replace_the_file_unless_prevented() {
    let format = Command::Format {
        spacing: Some(0),
        prevent_write: true,
        input: file(false),
    };
    assert_eq!(
        Ok(Outcome {
            output: "Format successful".to_string(),
            file: Some("[\n1\n]".to_string())
        }),
        Cli.process_command(&format, "[ 1 ]")
    );

    let minify = Command::Minify {
        prevent_write: false,
        input: file(false),
    };
    assert_eq!(
        Ok(Outcome {
            output: "[1]".to_string(),
            file: Some("[1]".to_string())
        }),
        Cli.process_command(&minify, "[ 1 ]")
    );

    let minify = Command::Minify {
        prevent_write: true,
        input: file(true),
    };
    assert_eq!(
        shown("Minify successful"),
        Cli.process_command(&minify, "[ 1 ]")
    );
}

#[test]
fn format_and_minify_refuse_what_is_no_value() {
    let minify = Command::Minify {
        prevent_write: false,
        input: file(false),
    };
    let refusal = Cli.process_command(&minify, "").unwrap_err();
    assert_eq!(
        "Empty source \n  |\n  |\n1 |\n  |^---Column=1\n  |",
        refusal.to_string()
    );

    let format = Command::Format {
        spacing: None,
        prevent_write: false,
        input: text(""),
    };
    let refusal = Cli.process_command(&format, "{\"a\":1,\"a\":2}").unwrap_err();
    assert_eq!(
        "Duplicate property \"a\" \n  |\n  |\n1 |{\"a\":1,\"a\":2}\n  |       ^---Column=8\n  |",
        refusal.to_string()
    );
}
