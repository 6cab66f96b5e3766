//! The display of a source at the place of an error: the frame of a preview
//! with a wider window and a plain caret.

use vstd::prelude::*;
use vstd::string::StringSliceAdditionalSpecFns;
use vstd::utf8::*;
use crate::error_preview::{frame_text, render};

verus! {

/// The longest stretch of one line shown on either side of the error.
pub open spec fn display_limit() -> int {
    42
}

/// The display of `source`, given as its bytes, at the byte offset `start`:
/// the frame of a preview, wider, with a plain caret.
pub open spec fn display_text(source: Seq<u8>, start: int, line: nat) -> Seq<char> {
    frame_text(
        decode_utf8(source.subrange(0, start)),
        decode_utf8(source.subrange(start, source.len() as int)),
        display_limit(),
        "^___"@,
        line,
    )
}

#[derive(Debug, PartialEq)]
pub struct ErrorDisplay;

impl ErrorDisplay {
    /// Renders the source round the byte offset `start` as a frame of five
    /// lines with a caret under the character at `start`. Where the error
    /// ends, `current`, does not change what is shown.
    pub fn preview(&self, source: &str, start: usize, current: usize, line: usize) -> (shown:
        String)
        requires
            is_char_boundary(source.spec_bytes(), start as int),
        ensures
            shown@ == display_text(source.spec_bytes(), start as int, line as nat),
    {
        let (backwards, forwards) = source.split_at(start);
        proof {
            broadcast use encode_utf8_decode_utf8;
        }
        assert(backwards@ == decode_utf8(source.spec_bytes().subrange(0, start as int)));
        assert(forwards@ == decode_utf8(
            source.spec_bytes().subrange(start as int, source.spec_bytes().len() as int),
        ));
        render(backwards, forwards, 42, "^___", line)
    }
}

} // verus!
