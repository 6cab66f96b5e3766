//! The bytes of formatted and of minified text.

use vstd::prelude::*;
use vstd::utf8::{encode_utf8, is_ascii_chars, is_ascii_chars_encode_utf8};
use crate::formatter::{format_text, formatted};
use crate::grammar::{
    COLON, COMMA, LEFT_BRACE, LEFT_BRACKET, LINE_FEED, RIGHT_BRACE, RIGHT_BRACKET, SPACE,
};
use crate::minifier::{listed, minified, minify_text};
use crate::node::Tree;
use crate::text::spaces_text;

verus! {

/// The bytes before a child, `depth` levels deep: where the text is
/// indented, as many spaces as the levels take.
pub open spec fn indentation(style: Option<nat>, depth: nat) -> Seq<u8> {
    match style {
        Some(space) => Seq::new(depth * space, |i: int| SPACE),
        None => Seq::empty(),
    }
}

/// The bytes that end a line, where the text has lines.
pub open spec fn line_break(style: Option<nat>) -> Seq<u8> {
    match style {
        Some(_) => seq![LINE_FEED],
        None => Seq::empty(),
    }
}

/// The bytes between the colon of a property and its value.
pub open spec fn colon_gap(style: Option<nat>) -> Seq<u8> {
    match style {
        Some(_) => seq![SPACE],
        None => Seq::empty(),
    }
}

/// The tree as the bytes of JSON text: indented by `space` spaces a level
/// where `style` is `Some(space)`, without any white space where it is
/// `None`.
pub open spec fn laid_out(tree: Tree, style: Option<nat>, depth: nat) -> Seq<u8>
    decreases tree, 0int,
{
    match tree {
        Tree::Object(children) => if children.len() == 0 {
            seq![LEFT_BRACE, RIGHT_BRACE]
        } else {
            seq![LEFT_BRACE] + line_break(style) + laid_out_from(children, style, depth + 1, 0)
                + indentation(style, depth) + seq![RIGHT_BRACE]
        },
        Tree::Property(key, value) => laid_out(*key, style, depth) + seq![COLON] + colon_gap(
            style,
        ) + laid_out(*value, style, depth),
        Tree::Array(children) => if children.len() == 0 {
            seq![LEFT_BRACKET, RIGHT_BRACKET]
        } else {
            seq![LEFT_BRACKET] + line_break(style) + laid_out_from(children, style, depth + 1, 0)
                + indentation(style, depth) + seq![RIGHT_BRACKET]
        },
        Tree::Literal(text) => encode_utf8(text),
    }
}

/// The comma behind the child of the given number, unless it is the last.
pub open spec fn comma_behind(children: Seq<Tree>, number: int) -> Seq<u8> {
    if number + 1 < children.len() {
        seq![COMMA]
    } else {
        Seq::empty()
    }
}

/// The children from the given number on, each with its indentation before
/// it and with its comma and the end of its line behind it.
pub open spec fn laid_out_from(children: Seq<Tree>, style: Option<nat>, depth: nat, from: int)
    -> Seq<u8>
    decreases children, children.len() - from,
{
    if 0 <= from < children.len() {
        indentation(style, depth) + laid_out(children[from], style, depth) + comma_behind(
            children,
            from,
        ) + line_break(style) + laid_out_from(children, style, depth, from + 1)
    } else {
        Seq::empty()
    }
}

/// Text behind text is encoded as the bytes of the one behind those of the
/// other.
pub proof fn lemma_encode_concat(first: Seq<char>, second: Seq<char>)
    ensures
        encode_utf8(first + second) == encode_utf8(first) + encode_utf8(second),
    decreases first.len(),
{
    if first.len() == 0 {
        assert(first + second =~= second);
        assert(encode_utf8(first) + encode_utf8(second) =~= encode_utf8(second));
    } else {
        lemma_encode_concat(first.drop_first(), second);
        assert((first + second).drop_first() =~= first.drop_first() + second);
        assert((first + second)[0] == first[0]);
        assert(encode_utf8(first + second) =~= encode_utf8(first) + encode_utf8(second));
    }
}

/// The bytes of the few texts of ASCII that a rendering is made of.
pub proof fn lemma_encode_marks()
    ensures
        encode_utf8(seq!['{', '}']) == seq![LEFT_BRACE, RIGHT_BRACE],
        encode_utf8(seq!['[', ']']) == seq![LEFT_BRACKET, RIGHT_BRACKET],
        encode_utf8(seq!['{', '\n']) == seq![LEFT_BRACE, LINE_FEED],
        encode_utf8(seq!['[', '\n']) == seq![LEFT_BRACKET, LINE_FEED],
        encode_utf8(seq!['{']) == seq![LEFT_BRACE],
        encode_utf8(seq!['[']) == seq![LEFT_BRACKET],
        encode_utf8(seq!['}']) == seq![RIGHT_BRACE],
        encode_utf8(seq![']']) == seq![RIGHT_BRACKET],
        encode_utf8(seq![':']) == seq![COLON],
        encode_utf8(seq![':', ' ']) == seq![COLON, SPACE],
        encode_utf8(seq![',']) == seq![COMMA],
        encode_utf8(seq!['\n']) == seq![LINE_FEED],
        encode_utf8(Seq::<char>::empty()) == Seq::<u8>::empty(),
{
    lemma_encode_ascii(seq!['{', '}'], seq![LEFT_BRACE, RIGHT_BRACE]);
    lemma_encode_ascii(seq!['[', ']'], seq![LEFT_BRACKET, RIGHT_BRACKET]);
    lemma_encode_ascii(seq!['{', '\n'], seq![LEFT_BRACE, LINE_FEED]);
    lemma_encode_ascii(seq!['[', '\n'], seq![LEFT_BRACKET, LINE_FEED]);
    lemma_encode_ascii(seq!['{'], seq![LEFT_BRACE]);
    lemma_encode_ascii(seq!['['], seq![LEFT_BRACKET]);
    lemma_encode_ascii(seq!['}'], seq![RIGHT_BRACE]);
    lemma_encode_ascii(seq![']'], seq![RIGHT_BRACKET]);
    lemma_encode_ascii(seq![':'], seq![COLON]);
    lemma_encode_ascii(seq![':', ' '], seq![COLON, SPACE]);
    lemma_encode_ascii(seq![','], seq![COMMA]);
    lemma_encode_ascii(seq!['\n'], seq![LINE_FEED]);
    assert(encode_utf8(Seq::<char>::empty()) =~= Seq::<u8>::empty());
}

/// Text of ASCII is encoded byte by byte.
pub proof fn lemma_encode_ascii(text: Seq<char>, bytes: Seq<u8>)
    requires
        text.len() == bytes.len(),
        forall|i: int| 0 <= i < text.len() ==> (#[trigger] text[i]) as int == bytes[i] as int,
        forall|i: int| 0 <= i < bytes.len() ==> #[trigger] bytes[i] < 0x80,
    ensures
        encode_utf8(text) == bytes,
{
    assert(is_ascii_chars(text)) by {
        assert forall|i: int| 0 <= i < text.len() implies '\0' <= #[trigger] text[i]
            <= '\u{7f}' by {
            assert(text[i] as int == bytes[i] as int);
            assert(bytes[i] < 0x80);
        }
    }
    is_ascii_chars_encode_utf8(text);
    assert forall|i: int| 0 <= i < text.len() implies #[trigger] encode_utf8(text)[i]
        == bytes[i] by {
        assert(text[i] as u8 == encode_utf8(text)[i]);
        assert(text[i] as int == bytes[i] as int);
    }
    assert(encode_utf8(text) =~= bytes);
}

/// Spaces are encoded as as many bytes.
pub proof fn lemma_encode_spaces(count: nat)
    ensures
        encode_utf8(spaces_text(count)) == Seq::new(count, |i: int| SPACE),
{
    lemma_encode_ascii(spaces_text(count), Seq::new(count, |i: int| SPACE));
}

/// The tree as text: formatted where `style` gives the spaces of a level,
/// minified where it gives none.
pub open spec fn rendered_text(tree: Tree, style: Option<nat>, depth: nat) -> Seq<char> {
    match style {
        Some(space) => format_text(tree, space, depth),
        None => minify_text(tree),
    }
}

/// The children as text, as the renderings list them: the first `upto` of
/// them at the given depth.
pub open spec fn rendered_list(children: Seq<Tree>, style: Option<nat>, depth: nat, upto: int)
    -> Seq<char> {
    match style {
        Some(space) => listed(
            formatted(children, space, depth),
            spaces_text(depth * space),
            seq!['\n'],
            upto,
        ),
        None => listed(minified(children), Seq::empty(), Seq::empty(), upto),
    }
}

/// The bytes of the formatted and of the minified text are the tree laid
/// out.
pub proof fn lemma_rendered_bytes(tree: Tree, style: Option<nat>, depth: nat)
    ensures
        encode_utf8(rendered_text(tree, style, depth)) == laid_out(tree, style, depth),
    decreases tree, 0int,
{
    lemma_encode_marks();
    match tree {
        Tree::Object(children) => {
            if children.len() > 0 {
                let list = rendered_list(children, style, depth + 1, children.len() as int);
                let bytes = laid_out_from(children, style, depth + 1, 0);
                lemma_rendered_list(children, style, depth + 1, children.len() as int);
                assert(laid_out_from(children, style, depth + 1, children.len() as int)
                    =~= Seq::<u8>::empty());
                assert(encode_utf8(list) =~= encode_utf8(list) + Seq::<u8>::empty());
                lemma_brackets(style, depth, list, bytes, '{', '}', LEFT_BRACE, RIGHT_BRACE);
                match style {
                    Some(space) => {
                        assert(rendered_text(tree, style, depth) == seq!['{', '\n'] + list
                            + spaces_text(depth * space) + seq!['}']);
                    },
                    None => {
                        assert(rendered_text(tree, style, depth) == seq!['{'] + list + seq!['}']);
                    },
                }
            } else {
                assert(rendered_text(tree, style, depth) =~= seq!['{', '}']);
            }
        },
        Tree::Property(key, value) => {
            lemma_rendered_bytes(*key, style, depth);
            lemma_rendered_bytes(*value, style, depth);
            let first = rendered_text(*key, style, depth);
            let second = rendered_text(*value, style, depth);
            match style {
                Some(_) => {
                    lemma_encode_concat(first + seq![':', ' '], second);
                    lemma_encode_concat(first, seq![':', ' ']);
                    assert(seq![COLON, SPACE] =~= seq![COLON] + seq![SPACE]);
                    assert(laid_out(tree, style, depth) =~= laid_out(*key, style, depth) + (seq![
                        COLON,
                    ] + seq![SPACE]) + laid_out(*value, style, depth));
                },
                None => {
                    lemma_encode_concat(first + seq![':'], second);
                    lemma_encode_concat(first, seq![':']);
                    assert(laid_out(tree, style, depth) =~= laid_out(*key, style, depth) + seq![
                        COLON,
                    ] + laid_out(*value, style, depth));
                },
            }
        },
        Tree::Array(children) => {
            if children.len() > 0 {
                let list = rendered_list(children, style, depth + 1, children.len() as int);
                let bytes = laid_out_from(children, style, depth + 1, 0);
                lemma_rendered_list(children, style, depth + 1, children.len() as int);
                assert(laid_out_from(children, style, depth + 1, children.len() as int)
                    =~= Seq::<u8>::empty());
                assert(encode_utf8(list) =~= encode_utf8(list) + Seq::<u8>::empty());
                lemma_brackets(style, depth, list, bytes, '[', ']', LEFT_BRACKET, RIGHT_BRACKET);
                match style {
                    Some(space) => {
                        assert(rendered_text(tree, style, depth) == seq!['[', '\n'] + list
                            + spaces_text(depth * space) + seq![']']);
                    },
                    None => {
                        assert(rendered_text(tree, style, depth) == seq!['['] + list + seq![']']);
                    },
                }
            } else {
                assert(rendered_text(tree, style, depth) =~= seq!['[', ']']);
            }
        },
        Tree::Literal(text) => {},
    }
}

/// The bytes of a list between its brackets.
proof fn lemma_brackets(
    style: Option<nat>,
    depth: nat,
    list: Seq<char>,
    bytes: Seq<u8>,
    open: char,
    close: char,
    open_byte: u8,
    close_byte: u8,
)
    requires
        encode_utf8(list) == bytes,
        encode_utf8(seq![open]) == seq![open_byte],
        encode_utf8(seq![close]) == seq![close_byte],
        encode_utf8(seq![open, '\n']) == seq![open_byte, LINE_FEED],
    ensures
        style matches Some(space) ==> encode_utf8(
            seq![open, '\n'] + list + spaces_text(depth * space) + seq![close],
        ) == seq![open_byte] + line_break(style) + bytes + indentation(style, depth) + seq![
            close_byte,
        ],
        style is None ==> encode_utf8(seq![open] + list + seq![close]) == seq![open_byte]
            + line_break(style) + bytes + indentation(style, depth) + seq![close_byte],
{
    match style {
        Some(space) => {
            let spacing = spaces_text(depth * space);
            lemma_encode_spaces(depth * space);
            lemma_encode_concat(seq![open, '\n'] + list + spacing, seq![close]);
            lemma_encode_concat(seq![open, '\n'] + list, spacing);
            lemma_encode_concat(seq![open, '\n'], list);
            assert(seq![open_byte, LINE_FEED] =~= seq![open_byte] + seq![LINE_FEED]);
        },
        None => {
            lemma_encode_concat(seq![open] + list, seq![close]);
            lemma_encode_concat(seq![open], list);
            assert(seq![open_byte] + line_break(style) + bytes + indentation(style, depth) + seq![
                close_byte,
            ] =~= seq![open_byte] + bytes + seq![close_byte]);
        },
    }
}

/// The bytes of the first children of a list and the children behind them
/// laid out are the whole list laid out.
proof fn lemma_rendered_list(children: Seq<Tree>, style: Option<nat>, depth: nat, upto: int)
    requires
        0 <= upto <= children.len(),
    ensures
        encode_utf8(rendered_list(children, style, depth, upto)) + laid_out_from(
            children,
            style,
            depth,
            upto,
        ) == laid_out_from(children, style, depth, 0),
    decreases children, upto,
{
    lemma_encode_marks();
    if upto == 0 {
        assert(rendered_list(children, style, depth, 0) =~= Seq::<char>::empty());
        assert(Seq::<u8>::empty() + laid_out_from(children, style, depth, 0) =~= laid_out_from(
            children,
            style,
            depth,
            0,
        ));
    } else {
        lemma_rendered_list(children, style, depth, upto - 1);
        lemma_rendered_bytes(children[upto - 1], style, depth);
        let so_far = rendered_list(children, style, depth, upto - 1);
        let child = rendered_text(children[upto - 1], style, depth);
        let comma = if upto < children.len() {
            seq![',']
        } else {
            Seq::<char>::empty()
        };
        assert(encode_utf8(comma) == comma_behind(children, upto - 1));
        let rest = laid_out_from(children, style, depth, upto);
        match style {
            Some(space) => {
                let spacing = spaces_text(depth * space);
                lemma_encode_spaces(depth * space);
                assert(formatted(children, space, depth)[upto - 1] == child);
                assert(rendered_list(children, style, depth, upto) == so_far + spacing + child
                    + comma + seq!['\n']);
                lemma_encode_concat(so_far + spacing + child + comma, seq!['\n']);
                lemma_encode_concat(so_far + spacing + child, comma);
                lemma_encode_concat(so_far + spacing, child);
                lemma_encode_concat(so_far, spacing);
                assert(encode_utf8(rendered_list(children, style, depth, upto)) + rest
                    =~= encode_utf8(so_far) + (indentation(style, depth) + laid_out(
                    children[upto - 1],
                    style,
                    depth,
                ) + comma_behind(children, upto - 1) + line_break(style) + rest));
            },
            None => {
                let empty = Seq::<char>::empty();
                assert(minified(children)[upto - 1] == child);
                assert(rendered_list(children, style, depth, upto) == so_far + empty + child
                    + comma + empty);
                assert(so_far + empty + child + comma + empty =~= so_far + child + comma);
                lemma_encode_concat(so_far + child, comma);
                lemma_encode_concat(so_far, child);
                assert(encode_utf8(rendered_list(children, style, depth, upto)) + rest
                    =~= encode_utf8(so_far) + (indentation(style, depth) + laid_out(
                    children[upto - 1],
                    style,
                    depth,
                ) + comma_behind(children, upto - 1) + line_break(style) + rest));
            },
        }
    }
}

} // verus!
