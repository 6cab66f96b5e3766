//! A visitor that shows the lexeme a scanner has read last.

use vstd::prelude::*;
use vstd::string::StringSliceAdditionalSpecFns;
use vstd::utf8::{decode_utf8, encode_utf8_decode_utf8, encode_utf8_valid_utf8, is_char_boundary};
use crate::parser::lemma_boundary_in_prefix;
use crate::scanner::Scanner;

verus! {

/// Whether the lexeme that `scanner` has read last lies within its source,
/// from the beginning of a character to the beginning of a character.
pub open spec fn lexeme_fits(scanner: &Scanner) -> bool {
    let source = scanner.source.spec_bytes();
    &&& scanner.start <= scanner.current <= source.len()
    &&& is_char_boundary(source, scanner.start as int)
    &&& is_char_boundary(source, scanner.current as int)
}

/// Something that goes to a scanner and has a text to say of it.
pub trait Visitor {
    fn visit_scanner(&self, scanner: &Scanner) -> (shown: String)
        requires
            lexeme_fits(scanner),
    ;
}

/// Shows the lexeme that a scanner has read last.
pub struct Previewer;

impl Previewer {
    /// The source between the byte offsets `start` and `current`.
    pub fn preview(&self, source: &str, start: usize, current: usize) -> (shown: String)
        requires
            start <= current <= source.spec_bytes().len(),
            is_char_boundary(source.spec_bytes(), start as int),
            is_char_boundary(source.spec_bytes(), current as int),
        ensures
            shown@ == decode_utf8(source.spec_bytes().subrange(start as int, current as int)),
    {
        proof {
            broadcast use encode_utf8_valid_utf8, encode_utf8_decode_utf8;

            lemma_boundary_in_prefix(source.spec_bytes(), start as int, current as int);
        }
        let (head, _) = source.split_at(current);
        let (_, text) = head.split_at(start);
        assert(text.spec_bytes() =~= source.spec_bytes().subrange(start as int, current as int));
        String::from_str(text)
    }
}

impl Visitor for Previewer {
    fn visit_scanner(&self, scanner: &Scanner) -> (shown: String)
        ensures
            shown@ == decode_utf8(
                scanner.source.spec_bytes().subrange(scanner.start as int, scanner.current as int),
            ),
    {
        self.preview(scanner.source, scanner.start, scanner.current)
    }
}

} // verus!
