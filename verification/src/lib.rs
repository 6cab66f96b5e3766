//! A JSON front end: a scanner that turns UTF-8 text into tokens, a
//! recursive-descent parser that turns tokens into a syntax tree, and the
//! bounded, caret-annotated previews that both attach to their errors.
//! A formatter and a minifier render the tree back to text.

pub mod token_type;
pub mod token;
pub mod token_collection;
pub mod lexer_error;
pub mod lexer;
pub mod node;
pub mod text;
pub mod unicode;
pub mod error_preview;
pub mod error_display;
pub mod scanner_error_update;
pub mod scanner_error;
pub mod number;
pub mod grammar;
pub mod transfer;
pub mod scanner;
pub mod property_map;
pub mod parser_error;
pub mod parser;
pub mod uniqueness;
pub mod minifier;
pub mod formatter;
pub mod layout;
pub mod round_trip;
pub mod place;
pub mod previewer;
pub mod scanner_update;
pub mod cli_args;
pub mod cli;
