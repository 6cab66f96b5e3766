//! The commands of the command line.

use vstd::prelude::*;

verus! {

/// Where the source comes from.
#[derive(Debug, PartialEq)]
pub enum Input {
    /// A file, by its path. Where `prevent_override` is set, the file is
    /// left as it is; otherwise formatted or minified output replaces its
    /// content.
    File { path: String, prevent_override: bool },
    /// The source itself.
    Text { input: String },
}

/// What is to be done with a source.
#[derive(Debug, PartialEq)]
pub enum Command {
    /// Parse it. With `verify`, say whether it is valid. With
    /// `prevent_write`, do not hand the source back.
    Parse { verify: bool, prevent_write: bool, input: Input },
    /// Format it, each level indented by `spacing` spaces, by four where
    /// none is given. With `prevent_write`, do not hand the output back.
    Format { spacing: Option<u8>, prevent_write: bool, input: Input },
    /// Minify it. With `prevent_write`, do not hand the output back.
    Minify { prevent_write: bool, input: Input },
}

/// The arguments of one run.
#[derive(Debug, PartialEq)]
pub struct CliArgs {
    pub command: Command,
}

impl Command {
    /// Where the source of the command comes from.
    pub open spec fn spec_input(self) -> Input {
        match self {
            Command::Parse { input, .. } => input,
            Command::Format { input, .. } => input,
            Command::Minify { input, .. } => input,
        }
    }

    /// Where the source of the command comes from.
    pub fn input(&self) -> (input: &Input)
        ensures
            *input == self.spec_input(),
    {
        match self {
            Command::Parse { input, .. } => input,
            Command::Format { input, .. } => input,
            Command::Minify { input, .. } => input,
        }
    }
}

} // verus!
