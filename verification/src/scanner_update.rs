//! A scanner over the grapheme clusters of a source.

use vstd::prelude::*;
use crate::unicode::{grapheme_offsets, grapheme_starts};

verus! {

/// A scanner that goes through its source by grapheme clusters rather than
/// by characters.
pub struct Scanner<'source> {
    source: &'source str,
    unicode: Vec<usize>,
    start: usize,
    current: usize,
    line: usize,
    column_start: usize,
    column_end: usize,
}

impl<'source> Scanner<'source> {
    /// The source that is scanned.
    pub closed spec fn source(self) -> &'source str {
        self.source
    }

    /// The byte offsets at which the grapheme clusters of the source begin.
    pub closed spec fn clusters(self) -> Seq<usize> {
        self.unicode@
    }

    /// Where the scanner stands: the byte offsets at which its lexeme
    /// begins and ends, its line and the columns of its lexeme.
    pub closed spec fn place(self) -> (usize, usize, usize, usize, usize) {
        (self.start, self.current, self.line, self.column_start, self.column_end)
    }

    pub fn new(source: &'source str) -> (scanner: Self)
        ensures
            scanner.source() == source,
            scanner.clusters() == grapheme_starts(source@),
            scanner.place() == (0usize, 0usize, 0usize, 1usize, 1usize),
    {
        Self {
            source,
            unicode: grapheme_offsets(source),
            start: 0,
            current: 0,
            line: 0,
            column_start: 1,
            column_end: 1,
        }
    }

    /// The byte offset at which the grapheme cluster of the given number
    /// begins, if the source has as many.
    pub fn cluster(&self, number: usize) -> (offset: Option<usize>)
        ensures
            offset == if number < self.clusters().len() {
                Some(self.clusters()[number as int])
            } else {
                None
            },
    {
        if number < self.unicode.len() {
            Some(self.unicode[number])
        } else {
            None
        }
    }
}

} // verus!
