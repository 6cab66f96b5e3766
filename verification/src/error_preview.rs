//! The preview of a source at the place of an error: a frame of five lines
//! with a caret under the place.

use vstd::prelude::*;
use vstd::string::StringSliceAdditionalSpecFns;
use vstd::utf8::*;
use crate::text::{chars_of, decimal, decimal_text, spaces, spaces_text};
use crate::unicode::{display_width, is_whitespace, str_width, white_space};

verus! {

/// Where the line that ends `text` begins: behind the last line feed, or at
/// the start.
pub open spec fn last_line_start(text: Seq<char>) -> int
    decreases text.len(),
{
    if text.len() == 0 {
        0
    } else if text.last() == '\n' {
        text.len() as int
    } else {
        last_line_start(text.drop_last())
    }
}

/// Where the line that begins `text` ends: at the first line feed, or at
/// the end.
pub open spec fn first_line_end(text: Seq<char>) -> int
    decreases text.len(),
{
    if text.len() == 0 {
        0
    } else if text[0] == '\n' {
        0
    } else {
        1 + first_line_end(text.drop_first())
    }
}

/// The end of the last line of `text`, at most `limit` characters of it.
pub open spec fn line_tail(text: Seq<char>, limit: int) -> Seq<char> {
    let from = if last_line_start(text) >= text.len() - limit {
        last_line_start(text)
    } else {
        text.len() - limit
    };
    text.skip(from)
}

/// The beginning of the first line of `text`, at most `limit` characters of
/// it.
pub open spec fn line_head(text: Seq<char>, limit: int) -> Seq<char> {
    let to = if first_line_end(text) <= limit {
        first_line_end(text)
    } else {
        limit
    };
    text.take(to)
}

/// `text` without the white space it begins with.
pub open spec fn trim_start(text: Seq<char>) -> Seq<char>
    decreases text.len(),
{
    if text.len() > 0 && white_space(text[0]) {
        trim_start(text.drop_first())
    } else {
        text
    }
}

/// `text` without the white space it ends with.
pub open spec fn trim_end(text: Seq<char>) -> Seq<char>
    decreases text.len(),
{
    if text.len() > 0 && white_space(text.last()) {
        trim_end(text.drop_last())
    } else {
        text
    }
}

/// Whether lines lie above the line that `before` ends with: `before`, the
/// source up to a place, holds a line feed.
pub open spec fn has_line_above(before: Seq<char>) -> bool {
    last_line_start(before) > 0
}

/// Whether lines lie below the line that `after` begins with: `after`, the
/// source from a place on, goes on behind a line feed.
pub open spec fn has_line_below(after: Seq<char>) -> bool {
    exists|i: int| 0 <= i < after.len() - 1 && after[i] == '\n'
}

/// The mark in the gutter: `+` where more lines lie beyond the one shown.
pub open spec fn sign_text(more: bool) -> Seq<char> {
    if more {
        seq!['+']
    } else {
        seq![' ']
    }
}

/// The five-line frame round the source at an error.
///
/// `before` is the source up to the error and `after` the source from it
/// on. The frame shows the end of the last line of `before` and the
/// beginning of the first line of `after`, at most `limit` characters of
/// each and without white space at either end, as one line numbered
/// `line_number`. Below the first character of `after` stands `pointer`;
/// it is moved there by as many spaces as the shown part of `before` is
/// wide. The gutter of the first line holds a `+` where the source has
/// lines above the one shown, and the gutter of the last line holds one
/// where it has lines below.
pub open spec fn frame_text(
    before: Seq<char>,
    after: Seq<char>,
    limit: int,
    pointer: Seq<char>,
    line_number: nat,
) -> Seq<char> {
    let back = trim_start(line_tail(before, limit));
    let forward = trim_end(line_head(after, limit));
    let number = decimal_text(line_number);
    let indent = spaces_text(number.len());
    seq!['\n']
        + indent + sign_text(has_line_above(before)) + seq!['|', '\n']
        + indent + seq![' ', '|', '\n']
        + number + seq![' ', '|'] + back + forward + seq!['\n']
        + indent + seq![' ', '|'] + spaces_text(display_width(back) as nat) + pointer
            + seq!['\n']
        + indent + sign_text(has_line_below(after)) + seq!['|']
}

/// The caret and the column beside it.
pub open spec fn column_pointer(column_start: nat) -> Seq<char> {
    "^---Column="@ + decimal_text(column_start)
}

/// The longest stretch of one line shown on either side of the error.
pub open spec fn preview_limit() -> int {
    32
}

/// The preview of `source`, given as its bytes, at the byte offset `start`.
pub open spec fn preview_text(
    source: Seq<u8>,
    start: int,
    column_start: nat,
    line_number: nat,
) -> Seq<char> {
    frame_text(
        decode_utf8(source.subrange(0, start)),
        decode_utf8(source.subrange(start, source.len() as int)),
        preview_limit(),
        column_pointer(column_start),
        line_number,
    )
}

/// The mark in the gutter.
pub(crate) fn sign(more: bool) -> (mark: &'static str)
    ensures
        mark@ == sign_text(more),
{
    proof {
        reveal_strlit("+");
        reveal_strlit(" ");
    }
    if more {
        "+"
    } else {
        " "
    }
}

/// Whether lines lie above the line that `before` ends with.
pub(crate) fn is_line_above(before: &Vec<char>) -> (above: bool)
    ensures
        above == has_line_above(before@),
{
    let mut i: usize = before.len();
    while i > 0
        invariant
            i <= before.len(),
            forall|j: int| i <= j < before.len() ==> before[j] != '\n',
        decreases i,
    {
        if before[i - 1] == '\n' {
            proof {
                lemma_line_bounds(before@);
                assert(before@[i - 1] == '\n');
            }
            return true;
        }
        i -= 1;
    }
    proof {
        lemma_line_bounds(before@);
        if last_line_start(before@) > 0 {
            assert(before[last_line_start(before@) - 1] == '\n');
        }
    }
    false
}

/// Whether lines lie below the line that `after` begins with.
pub(crate) fn is_line_below(after: &Vec<char>) -> (below: bool)
    ensures
        below == has_line_below(after@),
{
    if after.len() > 0 {
        let last = after.len() - 1;
        let mut i: usize = 0;
        while i < last
            invariant
                last == after.len() - 1,
                i <= last,
                forall|j: int| 0 <= j < i ==> after[j] != '\n',
            decreases last - i,
        {
            if after[i] == '\n' {
                assert(has_line_below(after@));
                return true;
            }
            i += 1;
        }
    }
    assert(!has_line_below(after@));
    false
}

/// Lines lie above a place exactly where the source up to the place holds a
/// line feed.
pub proof fn lemma_line_above(before: Seq<char>)
    ensures
        has_line_above(before) <==> exists|i: int| 0 <= i < before.len() && before[i] == '\n',
{
    lemma_line_bounds(before);
    if has_line_above(before) {
        assert(before[last_line_start(before) - 1] == '\n');
    }
}

pub(crate) proof fn lemma_line_bounds(text: Seq<char>)
    ensures
        0 <= last_line_start(text) <= text.len(),
        0 <= first_line_end(text) <= text.len(),
        last_line_start(text) > 0 ==> text[last_line_start(text) - 1] == '\n',
        first_line_end(text) < text.len() ==> text[first_line_end(text)] == '\n',
        forall|i: int| last_line_start(text) <= i < text.len() ==> text[i] != '\n',
        forall|i: int| 0 <= i < first_line_end(text) ==> text[i] != '\n',
    decreases text.len(),
{
    if text.len() > 0 {
        lemma_line_bounds(text.drop_last());
        lemma_line_bounds(text.drop_first());
        if text.last() != '\n' {
            let s = last_line_start(text.drop_last());
            assert forall|i: int| last_line_start(text) <= i < text.len() implies text[i]
                != '\n' by {
                if i < text.len() - 1 {
                    assert(text.drop_last()[i] == text[i]);
                }
            }
            if s > 0 {
                assert(text.drop_last()[s - 1] == text[s - 1]);
            }
        }
        if text[0] != '\n' {
            let e = first_line_end(text.drop_first());
            assert forall|i: int| 0 <= i < first_line_end(text) implies text[i] != '\n' by {
                if i > 0 {
                    assert(text.drop_first()[i - 1] == text[i]);
                }
            }
            if e < text.drop_first().len() {
                assert(text.drop_first()[e] == text[e + 1]);
            }
        }
    }
}

#[derive(Debug, PartialEq)]
pub struct ErrorPreview;

impl ErrorPreview {
    /// Renders the source round the byte offset `start` as a frame of five
    /// lines with a caret under the character at `start`.
    pub fn preview(
        &self,
        source: &str,
        start: usize,
        column_start: usize,
        line_number: usize,
    ) -> (shown: String)
        requires
            is_char_boundary(source.spec_bytes(), start as int),
        ensures
            shown@ == preview_text(
                source.spec_bytes(),
                start as int,
                column_start as nat,
                line_number as nat,
            ),
    {
        let (backwards, forwards) = source.split_at(start);
        proof {
            broadcast use encode_utf8_decode_utf8;
        }
        assert(backwards@ == decode_utf8(source.spec_bytes().subrange(0, start as int)));
        assert(forwards@ == decode_utf8(
            source.spec_bytes().subrange(start as int, source.spec_bytes().len() as int),
        ));
        let mut pointer = String::from_str("^---Column=");
        pointer.append(decimal(column_start).as_str());
        render(backwards, forwards, 32, pointer.as_str(), line_number)
    }
}

/// Where the shown part of `back` begins: at most the limit before its
/// end, on its last line, behind the white space that part begins with.
fn back_window(back: &Vec<char>, limit: usize) -> (lo: usize)
    ensures
        lo <= back.len(),
        back@.skip(lo as int) == trim_start(line_tail(back@, limit as int)),
{
    proof {
        lemma_line_bounds(back@);
    }
    let mut lo: usize = back.len();
    let mut taken: usize = 0;
    while lo > 0 && taken < limit && back[lo - 1] != '\n'
        invariant
            lo <= back.len(),
            taken == back.len() - lo,
            taken <= limit,
            last_line_start(back@) <= lo,
            0 <= last_line_start(back@) <= back.len(),
            last_line_start(back@) > 0 ==> back@[last_line_start(back@) - 1] == '\n',
        decreases lo,
    {
        lo -= 1;
        taken += 1;
    }
    assert(back@.skip(lo as int) == line_tail(back@, limit as int));
    let ghost window = back@.skip(lo as int);
    while lo < back.len() && is_whitespace(back[lo])
        invariant
            lo <= back.len(),
            trim_start(back@.skip(lo as int)) == trim_start(window),
        decreases back.len() - lo,
    {
        assert(back@.skip(lo as int).drop_first() =~= back@.skip(lo as int + 1));
        lo += 1;
    }
    lo
}

/// Where the shown part of `fwd` ends: at most the limit behind its start,
/// on its first line, before the white space that part ends with.
fn forward_window(fwd: &Vec<char>, limit: usize) -> (hi: usize)
    ensures
        hi <= fwd.len(),
        fwd@.take(hi as int) == trim_end(line_head(fwd@, limit as int)),
{
    proof {
        lemma_line_bounds(fwd@);
    }
    let mut hi: usize = 0;
    while hi < fwd.len() && hi < limit && fwd[hi] != '\n'
        invariant
            hi <= fwd.len(),
            hi <= limit,
            hi <= first_line_end(fwd@),
            0 <= first_line_end(fwd@) <= fwd.len(),
            first_line_end(fwd@) < fwd.len() ==> fwd@[first_line_end(fwd@)] == '\n',
        decreases fwd.len() - hi,
    {
        hi += 1;
    }
    assert(fwd@.take(hi as int) == line_head(fwd@, limit as int));
    let ghost head = fwd@.take(hi as int);
    while hi > 0 && is_whitespace(fwd[hi - 1])
        invariant
            hi <= fwd.len(),
            trim_end(fwd@.take(hi as int)) == trim_end(head),
        decreases hi,
    {
        assert(fwd@.take(hi as int).drop_last() =~= fwd@.take(hi as int - 1));
        hi -= 1;
    }
    hi
}

/// Renders the frame for an error that stands between `backwards` and
/// `forwards`.
pub(crate) fn render(
    backwards: &str,
    forwards: &str,
    limit: usize,
    pointer: &str,
    line_number: usize,
) -> (shown: String)
    ensures
        shown@ == frame_text(
            backwards@,
            forwards@,
            limit as int,
            pointer@,
            line_number as nat,
        ),
{
    let back = chars_of(backwards);
    let fwd = chars_of(forwards);
    let lo = back_window(&back, limit);
    let back_preview = backwards.substring_char(lo, back.len());
    let hi = forward_window(&fwd, limit);
    let forward_preview = forwards.substring_char(0, hi);
    let number = decimal(line_number);
    let indent = spaces(number.as_str().unicode_len());
    let pointer_position = spaces(str_width(back_preview));
    assemble(
        indent.as_str(),
        sign(is_line_above(&back)),
        number.as_str(),
        back_preview,
        forward_preview,
        pointer_position.as_str(),
        pointer,
        sign(is_line_below(&fwd)),
    )
}

/// Puts the parts of a frame together.
fn assemble(
    indent: &str,
    above_sign: &str,
    number: &str,
    back_preview: &str,
    forward_preview: &str,
    pointer_position: &str,
    pointer: &str,
    below_sign: &str,
) -> (shown: String)
    ensures
        shown@ == seq!['\n']
            + indent@ + above_sign@ + seq!['|', '\n']
            + indent@ + seq![' ', '|', '\n']
            + number@ + seq![' ', '|'] + back_preview@ + forward_preview@ + seq!['\n']
            + indent@ + seq![' ', '|'] + pointer_position@ + pointer@ + seq!['\n']
            + indent@ + below_sign@ + seq!['|'],
{
    proof {
        reveal_strlit("\n");
        reveal_strlit("|\n");
        reveal_strlit(" |\n");
        reveal_strlit(" |");
        reveal_strlit("|");
    }
    let mut shown = String::from_str("\n");
    shown.append(indent);
    shown.append(above_sign);
    shown.append("|\n");
    shown.append(indent);
    shown.append(" |\n");
    shown.append(number);
    shown.append(" |");
    shown.append(back_preview);
    shown.append(forward_preview);
    shown.append("\n");
    shown.append(indent);
    shown.append(" |");
    shown.append(pointer_position);
    shown.append(pointer);
    shown.append("\n");
    shown.append(indent);
    shown.append(below_sign);
    shown.append("|");
    assert("\n"@ =~= seq!['\n']);
    assert("|\n"@ =~= seq!['|', '\n']);
    assert(" |\n"@ =~= seq![' ', '|', '\n']);
    assert(" |"@ =~= seq![' ', '|']);
    assert("|"@ =~= seq!['|']);
    shown
}

} // verus!
