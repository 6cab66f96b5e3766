//! Rendered text is scanned and parsed as the tree it was rendered from.

use vstd::prelude::*;
use vstd::utf8::{
    decode_utf8_encode_utf8, encode_utf8, encode_utf8_decode_utf8,
    is_char_boundary_start_end_of_seq, valid_utf8, valid_utf8_split,
};
use crate::grammar::{
    is_blank, lexeme_at, token_at, tokens_from, Failure, Lexeme, COLON, COMMA, LEFT_BRACE,
    LEFT_BRACKET, RIGHT_BRACE, RIGHT_BRACKET,
};
use crate::layout::{
    colon_gap, comma_behind, indentation, laid_out, laid_out_from, lemma_rendered_bytes, line_break,
};
use crate::formatter::format_text;
use crate::minifier::minify_text;
use crate::node::Tree;
use crate::scanner::{lemma_scanned_tokens_are_lexemes, lemma_scanned_tokens_fit};
use crate::parser::{
    array_at, elements_at, key_text, keys_of, lemma_boundary_in_prefix, lemma_elements_in_context,
    lemma_members_are_distinct, lemma_members_in_context, lemma_value_in_context, members_at,
    object_at, property_at, token_fits, token_text, tree_of, value_at, Mismatch,
};
use crate::token::Token;
use crate::token_type::TokenType;
use crate::transfer::{is_punctuation, lemma_lexeme_transfer, same_bytes};

verus! {

/// The type of the token that `word` is, if it is one token and nothing
/// else.
pub open spec fn standalone(word: Seq<u8>) -> Option<TokenType> {
    match lexeme_at(word, 0) {
        Lexeme::Token(token_type, end) => if word.len() > 0 && !is_blank(word[0]) && end
            == word.len() {
            Some(token_type)
        } else {
            None
        },
        Lexeme::Failure(_, _) => None,
    }
}

/// Whether `text` is the text of a string, a number, `true`, `false` or
/// `null`.
pub open spec fn is_scalar_text(text: Seq<char>) -> bool {
    match standalone(encode_utf8(text)) {
        Some(token_type) => token_type.is_scalar(),
        None => false,
    }
}

/// Whether the tree is a JSON value: a literal with the text of a string,
/// a number, `true`, `false` or `null`; an array of values; or an object
/// of properties with keys that differ from one another.
pub open spec fn is_value(tree: Tree) -> bool
    decreases tree, 0int,
{
    match tree {
        Tree::Object(children) => keys_of(children).no_duplicates() && forall|i: int|
            0 <= i < children.len() ==> is_member(#[trigger] children[i]),
        Tree::Property(_, _) => false,
        Tree::Array(children) => forall|i: int|
            0 <= i < children.len() ==> is_value(#[trigger] children[i]),
        Tree::Literal(text) => is_scalar_text(text),
    }
}

/// Whether the tree is a property of an object: a string as its key and a
/// JSON value.
pub open spec fn is_member(tree: Tree) -> bool
    decreases tree, 1int,
{
    match tree {
        Tree::Property(key, value) => (match *key {
            Tree::Literal(text) => standalone(encode_utf8(text)) == Some(TokenType::String),
            _ => false,
        }) && is_value(*value),
        _ => false,
    }
}

/// Whether `bytes` holds `part` at `at`.
pub open spec fn holds(bytes: Seq<u8>, at: int, part: Seq<u8>) -> bool {
    &&& 0 <= at
    &&& at + part.len() <= bytes.len()
    &&& bytes.subrange(at, at + part.len()) == part
}

/// Whether a token that ends at `at` is set off from what follows: by the
/// end of the bytes, by a blank or by a token of one byte.
pub open spec fn ends(bytes: Seq<u8>, at: int) -> bool {
    at >= bytes.len() || is_blank(bytes[at]) || is_punctuation(bytes[at])
}

/// Whether scanning from `at` gives `tokens` and then what scanning from
/// `to` gives.
pub open spec fn follows(bytes: Seq<u8>, at: int, to: int, tokens: Seq<Token>) -> bool {
    tokens_from(bytes, at) == match tokens_from(bytes, to) {
        Ok(rest) => Ok::<Seq<Token>, Failure>(tokens + rest),
        Err(failure) => Err(failure),
    }
}

/// A part of a part is held where it stands in the whole.
pub proof fn lemma_holds_part(bytes: Seq<u8>, at: int, whole: Seq<u8>, from: int, part: Seq<u8>)
    requires
        holds(bytes, at, whole),
        0 <= from,
        from + part.len() <= whole.len(),
        whole.subrange(from, from + part.len()) == part,
    ensures
        holds(bytes, at + from, part),
{
    assert(bytes.subrange(at + from, at + from + part.len()) =~= bytes.subrange(
        at,
        at + whole.len(),
    ).subrange(from, from + part.len()));
}

/// Blanks are passed over.
pub proof fn lemma_skip_blanks(bytes: Seq<u8>, at: int, to: int)
    requires
        0 <= at <= to <= bytes.len(),
        forall|i: int| at <= i < to ==> is_blank(#[trigger] bytes[i]),
    ensures
        tokens_from(bytes, at) == tokens_from(bytes, to),
        follows(bytes, at, to, Seq::empty()),
    decreases to - at,
{
    if at < to {
        lemma_skip_blanks(bytes, at + 1, to);
    }
    match tokens_from(bytes, to) {
        Ok(rest) => {
            assert(Seq::<Token>::empty() + rest =~= rest);
        },
        Err(_) => {},
    }
}

/// A lexeme that is a token is the first of the tokens from its place on.
pub proof fn lemma_one_token(bytes: Seq<u8>, at: int, token_type: TokenType, end: int)
    requires
        0 <= at < bytes.len(),
        !is_blank(bytes[at]),
        lexeme_at(bytes, at) == Lexeme::Token(token_type, end),
    ensures
        follows(bytes, at, end, seq![token_at(bytes, token_type, at, end)]),
{
}

/// Tokens behind tokens follow from the place of the first.
pub proof fn lemma_follows_on(
    bytes: Seq<u8>,
    at: int,
    between: int,
    to: int,
    first: Seq<Token>,
    second: Seq<Token>,
)
    requires
        follows(bytes, at, between, first),
        follows(bytes, between, to, second),
    ensures
        follows(bytes, at, to, first + second),
{
    match tokens_from(bytes, to) {
        Ok(rest) => {
            assert(first + (second + rest) =~= first + second + rest);
        },
        Err(_) => {},
    }
}

/// The type of the token that `byte` is by itself.
pub open spec fn mark_type(byte: u8) -> TokenType {
    if byte == LEFT_BRACE {
        TokenType::LeftBrace
    } else if byte == RIGHT_BRACE {
        TokenType::RightBrace
    } else if byte == LEFT_BRACKET {
        TokenType::LeftBracket
    } else if byte == RIGHT_BRACKET {
        TokenType::RightBracket
    } else if byte == COLON {
        TokenType::Colon
    } else {
        TokenType::Comma
    }
}

/// The token of one byte at `at`.
pub open spec fn mark_at(bytes: Seq<u8>, at: int) -> Token {
    token_at(bytes, mark_type(bytes[at]), at, at + 1)
}

/// A token of one byte is scanned where its byte stands.
pub proof fn lemma_mark_token(bytes: Seq<u8>, at: int)
    requires
        0 <= at < bytes.len(),
        is_punctuation(bytes[at]),
    ensures
        follows(bytes, at, at + 1, seq![mark_at(bytes, at)]),
{
    lemma_one_token(bytes, at, mark_type(bytes[at]), at + 1);
}

/// Whether every byte of `part` is a blank.
pub open spec fn all_blank(part: Seq<u8>) -> bool {
    forall|i: int| 0 <= i < part.len() ==> is_blank(#[trigger] part[i])
}

/// What stands between the tokens of a rendering is blank.
pub proof fn lemma_gaps_are_blank(style: Option<nat>, depth: nat)
    ensures
        all_blank(indentation(style, depth)),
        all_blank(line_break(style)),
        all_blank(colon_gap(style)),
{
}

/// A blank part is passed over.
pub proof fn lemma_skip_part(bytes: Seq<u8>, at: int, part: Seq<u8>)
    requires
        holds(bytes, at, part),
        all_blank(part),
    ensures
        follows(bytes, at, at + part.len(), Seq::empty()),
        tokens_from(bytes, at) == tokens_from(bytes, at + part.len()),
{
    assert forall|i: int| at <= i < at + part.len() implies is_blank(#[trigger] bytes[i]) by {
        assert(bytes.subrange(at, at + part.len())[i - at] == bytes[i]);
        assert(is_blank(part[i - at]));
    }
    lemma_skip_blanks(bytes, at, at + part.len());
}

/// Where a part behind a part is held, each of the two is held.
pub proof fn lemma_holds_both(bytes: Seq<u8>, at: int, first: Seq<u8>, second: Seq<u8>)
    requires
        holds(bytes, at, first + second),
    ensures
        holds(bytes, at, first),
        holds(bytes, at + first.len(), second),
{
    let whole = first + second;
    assert(whole.subrange(0, first.len() as int) =~= first);
    assert(whole.subrange(first.len() as int, whole.len() as int) =~= second);
    lemma_holds_part(bytes, at, whole, 0, first);
    lemma_holds_part(bytes, at, whole, first.len() as int, second);
}

/// Where a byte is held, it stands.
pub proof fn lemma_holds_byte(bytes: Seq<u8>, at: int, byte: u8)
    requires
        holds(bytes, at, seq![byte]),
    ensures
        at < bytes.len(),
        bytes[at] == byte,
{
    assert(bytes.subrange(at, at + 1)[0] == byte);
}

/// A literal that is laid out is scanned as one token, and the token is
/// parsed as the literal.
pub proof fn lemma_literal_token(bytes: Seq<u8>, at: int, text: Seq<char>) -> (token: Token)
    requires
        bytes.len() <= usize::MAX,
        standalone(encode_utf8(text)) is Some,
        holds(bytes, at, encode_utf8(text)),
        ends(bytes, at + encode_utf8(text).len()),
    ensures
        follows(bytes, at, at + encode_utf8(text).len(), seq![token]),
        Some(token.token_type) == standalone(encode_utf8(text)),
        token_text(bytes, token) == text,
{
    let word = encode_utf8(text);
    let token_type = standalone(word)->Some_0;
    assert(same_bytes(word, 0, bytes, at, word.len() as int)) by {
        assert forall|x: int| 0 <= x < word.len() implies #[trigger] word[0 + x] == bytes[at
            + x] by {
            assert(bytes.subrange(at, at + word.len())[x] == bytes[at + x]);
        }
    }
    lemma_lexeme_transfer(word, 0, bytes, at, word.len() as int, token_type);
    lemma_one_token(bytes, at, token_type, at + word.len());
    let token = token_at(bytes, token_type, at, at + word.len());
    encode_utf8_decode_utf8(text);
    token
}

/// The tokens of a value, a comma and the tokens of further values are
/// parsed as the first value and then the further ones.
pub proof fn lemma_elements_step(
    bytes: Seq<u8>,
    first: Seq<Token>,
    comma: Token,
    rest: Seq<Token>,
    closing: Token,
    before: Seq<Tree>,
    child: Tree,
    all: Seq<Tree>,
)
    requires
        value_at(bytes, first, 0) == Ok::<(Tree, int), Mismatch>((child, first.len() as int)),
        comma.token_type == TokenType::Comma,
        elements_at(bytes, rest + seq![closing], 0, before.push(child)) == Ok::<
            (Seq<Tree>, int),
            Mismatch,
        >((all, rest.len() as int)),
    ensures
        elements_at(bytes, first + seq![comma] + rest + seq![closing], 0, before) == Ok::<
            (Seq<Tree>, int),
            Mismatch,
        >((all, first.len() as int + 1 + rest.len())),
{
    let tokens = first + seq![comma] + rest + seq![closing];
    let empty = Seq::<Token>::empty();
    lemma_value_in_context(bytes, first, empty, seq![comma] + rest + seq![closing], 0);
    assert(empty + first + (seq![comma] + rest + seq![closing]) =~= tokens);
    assert(tokens[first.len() as int] == comma);
    lemma_elements_in_context(
        bytes,
        rest + seq![closing],
        first + seq![comma],
        empty,
        0,
        before.push(child),
    );
    assert(first + seq![comma] + (rest + seq![closing]) + empty =~= tokens);
}

/// The tokens of a value before a token that is no comma are parsed as the
/// last value of a list.
pub proof fn lemma_elements_last(
    bytes: Seq<u8>,
    first: Seq<Token>,
    closing: Token,
    before: Seq<Tree>,
    child: Tree,
)
    requires
        value_at(bytes, first, 0) == Ok::<(Tree, int), Mismatch>((child, first.len() as int)),
        closing.token_type != TokenType::Comma,
    ensures
        elements_at(bytes, first + seq![closing], 0, before) == Ok::<(Seq<Tree>, int), Mismatch>(
            (before.push(child), first.len() as int),
        ),
{
    let tokens = first + seq![closing];
    let empty = Seq::<Token>::empty();
    lemma_value_in_context(bytes, first, empty, seq![closing], 0);
    assert(empty + first + seq![closing] =~= tokens);
    assert(tokens[first.len() as int] == closing);
}

/// The tokens of a property, a comma and the tokens of further properties
/// are parsed as the first property and then the further ones, if the key
/// of the first is new.
pub proof fn lemma_members_step(
    bytes: Seq<u8>,
    first: Seq<Token>,
    comma: Token,
    rest: Seq<Token>,
    closing: Token,
    before: Seq<Tree>,
    child: Tree,
    all: Seq<Tree>,
)
    requires
        property_at(bytes, first, 0) == Ok::<(Tree, int), Mismatch>((child, first.len() as int)),
        comma.token_type == TokenType::Comma,
        !keys_of(before).contains(key_text(child)),
        members_at(bytes, rest + seq![closing], 0, before.push(child)) == Ok::<
            (Seq<Tree>, int),
            Mismatch,
        >((all, rest.len() as int)),
    ensures
        members_at(bytes, first + seq![comma] + rest + seq![closing], 0, before) == Ok::<
            (Seq<Tree>, int),
            Mismatch,
        >((all, first.len() as int + 1 + rest.len())),
{
    let tokens = first + seq![comma] + rest + seq![closing];
    let empty = Seq::<Token>::empty();
    lemma_value_in_context(bytes, first, empty, seq![comma] + rest + seq![closing], 0);
    assert(empty + first + (seq![comma] + rest + seq![closing]) =~= tokens);
    assert(tokens[first.len() as int] == comma);
    lemma_members_in_context(
        bytes,
        rest + seq![closing],
        first + seq![comma],
        empty,
        0,
        before.push(child),
    );
    assert(first + seq![comma] + (rest + seq![closing]) + empty =~= tokens);
}

/// The tokens of a property before a token that is no comma are parsed as
/// the last property of a list, if its key is new.
pub proof fn lemma_members_last(
    bytes: Seq<u8>,
    first: Seq<Token>,
    closing: Token,
    before: Seq<Tree>,
    child: Tree,
)
    requires
        property_at(bytes, first, 0) == Ok::<(Tree, int), Mismatch>((child, first.len() as int)),
        closing.token_type != TokenType::Comma,
        !keys_of(before).contains(key_text(child)),
    ensures
        members_at(bytes, first + seq![closing], 0, before) == Ok::<(Seq<Tree>, int), Mismatch>(
            (before.push(child), first.len() as int),
        ),
{
    let tokens = first + seq![closing];
    let empty = Seq::<Token>::empty();
    lemma_value_in_context(bytes, first, empty, seq![closing], 0);
    assert(empty + first + seq![closing] =~= tokens);
    assert(tokens[first.len() as int] == closing);
}

/// A bracket, the tokens of values and the closing bracket are parsed as
/// the array of the values.
pub proof fn lemma_array_parse(
    bytes: Seq<u8>,
    opening: Token,
    inner: Seq<Token>,
    closing: Token,
    children: Seq<Tree>,
)
    requires
        opening.token_type == TokenType::LeftBracket,
        closing.token_type == TokenType::RightBracket,
        inner.len() > 0,
        elements_at(bytes, inner + seq![closing], 0, Seq::empty()) == Ok::<
            (Seq<Tree>, int),
            Mismatch,
        >((children, inner.len() as int)),
    ensures
        value_at(bytes, seq![opening] + inner + seq![closing], 0) == Ok::<(Tree, int), Mismatch>(
            (Tree::Array(children), inner.len() as int + 2),
        ),
{
    let tokens = seq![opening] + inner + seq![closing];
    let empty = Seq::<Token>::empty();
    lemma_elements_in_context(bytes, inner + seq![closing], seq![opening], empty, 0, Seq::empty());
    assert(seq![opening] + (inner + seq![closing]) + empty =~= tokens);
    assert(tokens[0] == opening);
    assert(tokens[1] == inner[0]);
    assert((inner + seq![closing])[0] == inner[0]);
    assert(tokens[inner.len() as int + 1] == closing);
    assert(value_at(bytes, inner + seq![closing], 0) is Ok);
    assert(inner[0].token_type != TokenType::RightBracket);
    assert(elements_at(bytes, tokens, 1, Seq::empty()) == Ok::<(Seq<Tree>, int), Mismatch>(
        (children, inner.len() as int + 1),
    ));
    assert(array_at(bytes, tokens, 1) == Ok::<(Tree, int), Mismatch>(
        (Tree::Array(children), inner.len() as int + 2),
    ));
}

/// A brace, the tokens of properties and the closing brace are parsed as
/// the object of the properties.
pub proof fn lemma_object_parse(
    bytes: Seq<u8>,
    opening: Token,
    inner: Seq<Token>,
    closing: Token,
    children: Seq<Tree>,
)
    requires
        opening.token_type == TokenType::LeftBrace,
        closing.token_type == TokenType::RightBrace,
        inner.len() > 0,
        members_at(bytes, inner + seq![closing], 0, Seq::empty()) == Ok::<
            (Seq<Tree>, int),
            Mismatch,
        >((children, inner.len() as int)),
    ensures
        value_at(bytes, seq![opening] + inner + seq![closing], 0) == Ok::<(Tree, int), Mismatch>(
            (Tree::Object(children), inner.len() as int + 2),
        ),
{
    let tokens = seq![opening] + inner + seq![closing];
    let empty = Seq::<Token>::empty();
    lemma_members_in_context(bytes, inner + seq![closing], seq![opening], empty, 0, Seq::empty());
    assert(seq![opening] + (inner + seq![closing]) + empty =~= tokens);
    assert(tokens[0] == opening);
    assert(tokens[1] == inner[0]);
    assert((inner + seq![closing])[0] == inner[0]);
    assert(tokens[inner.len() as int + 1] == closing);
    assert(property_at(bytes, inner + seq![closing], 0) is Ok);
    assert(inner[0].token_type == TokenType::String);
    assert(members_at(bytes, tokens, 1, Seq::empty()) == Ok::<(Seq<Tree>, int), Mismatch>(
        (children, inner.len() as int + 1),
    ));
    assert(object_at(bytes, tokens, 1) == Ok::<(Tree, int), Mismatch>(
        (Tree::Object(children), inner.len() as int + 2),
    ));
}

/// A string, a colon and the tokens of a value are parsed as the property
/// of the value under the string.
pub proof fn lemma_property_parse(
    bytes: Seq<u8>,
    key: Token,
    colon: Token,
    inner: Seq<Token>,
    value: Tree,
)
    requires
        key.token_type == TokenType::String,
        colon.token_type == TokenType::Colon,
        value_at(bytes, inner, 0) == Ok::<(Tree, int), Mismatch>((value, inner.len() as int)),
    ensures
        property_at(bytes, seq![key, colon] + inner, 0) == Ok::<(Tree, int), Mismatch>(
            (
                Tree::Property(
                    Box::new(Tree::Literal(token_text(bytes, key))),
                    Box::new(value),
                ),
                inner.len() as int + 2,
            ),
        ),
{
    let tokens = seq![key, colon] + inner;
    let empty = Seq::<Token>::empty();
    lemma_value_in_context(bytes, inner, seq![key, colon], empty, 0);
    assert(seq![key, colon] + inner + empty =~= tokens);
    assert(tokens[0] == key);
    assert(tokens[1] == colon);
}

/// Where a list between brackets is held, its list is held behind the
/// opening bracket and the end of its line, and is set off from what
/// follows; the closing bracket stands behind the indentation.
pub proof fn lemma_brackets_held(
    bytes: Seq<u8>,
    at: int,
    style: Option<nat>,
    depth: nat,
    list: Seq<u8>,
    opening: u8,
    closing: u8,
)
    requires
        holds(
            bytes,
            at,
            seq![opening] + line_break(style) + list + indentation(style, depth) + seq![closing],
        ),
        is_punctuation(closing),
    ensures
        at < bytes.len(),
        bytes[at] == opening,
        holds(bytes, at + 1 + line_break(style).len(), list),
        ends(bytes, at + 1 + line_break(style).len() + list.len()),
        at + 1 + line_break(style).len() + list.len() + indentation(style, depth).len()
            < bytes.len(),
        bytes[at + 1 + line_break(style).len() + list.len() + indentation(style, depth).len()]
            == closing,
        tokens_from(bytes, at + 1) == tokens_from(bytes, at + 1 + line_break(style).len()),
        tokens_from(bytes, at + 1 + line_break(style).len() + list.len()) == tokens_from(
            bytes,
            at + 1 + line_break(style).len() + list.len() + indentation(style, depth).len(),
        ),
{
    let first = seq![opening];
    let second = line_break(style);
    let fourth = indentation(style, depth);
    let fifth = seq![closing];
    lemma_holds_both(bytes, at, first + second + list + fourth, fifth);
    lemma_holds_both(bytes, at, first + second + list, fourth);
    lemma_holds_both(bytes, at, first + second, list);
    lemma_holds_both(bytes, at, first, second);
    lemma_holds_byte(bytes, at, opening);
    let behind = at + 1 + second.len() + list.len();
    lemma_holds_byte(bytes, behind + fourth.len(), closing);
    lemma_gaps_are_blank(style, depth);
    lemma_skip_part(bytes, at + 1, second);
    lemma_skip_part(bytes, behind, fourth);
    if fourth.len() > 0 {
        assert(bytes.subrange(behind, behind + fourth.len())[0] == bytes[behind]);
        assert(is_blank(fourth[0]));
    }
}

/// Where an item of a list is held, its child is held behind the
/// indentation and is set off from what follows, and the comma stands
/// behind the child if the child is not the last.
pub proof fn lemma_item_held(
    bytes: Seq<u8>,
    at: int,
    children: Seq<Tree>,
    style: Option<nat>,
    depth: nat,
    from: int,
)
    requires
        0 <= from < children.len(),
        holds(bytes, at, laid_out_from(children, style, depth, from)),
        ends(bytes, at + laid_out_from(children, style, depth, from).len()),
    ensures
        ({
            let child = at + indentation(style, depth).len();
            let comma = child + laid_out(children[from], style, depth).len();
            let rest = comma + comma_behind(children, from).len() + line_break(style).len();
            &&& holds(bytes, child, laid_out(children[from], style, depth))
            &&& ends(bytes, comma)
            &&& tokens_from(bytes, at) == tokens_from(bytes, child)
            &&& holds(bytes, rest, laid_out_from(children, style, depth, from + 1))
            &&& rest + laid_out_from(children, style, depth, from + 1).len() == at
                + laid_out_from(children, style, depth, from).len()
            &&& from + 1 < children.len() ==> comma < bytes.len() && bytes[comma] == COMMA
                && tokens_from(bytes, comma + 1) == tokens_from(bytes, rest)
            &&& from + 1 >= children.len() ==> tokens_from(bytes, comma) == tokens_from(
                bytes,
                rest,
            ) && laid_out_from(children, style, depth, from + 1).len() == 0
        }),
{
    let first = indentation(style, depth);
    let second = laid_out(children[from], style, depth);
    let third = comma_behind(children, from);
    let fourth = line_break(style);
    let fifth = laid_out_from(children, style, depth, from + 1);
    lemma_holds_both(bytes, at, first + second + third + fourth, fifth);
    lemma_holds_both(bytes, at, first + second + third, fourth);
    lemma_holds_both(bytes, at, first + second, third);
    lemma_holds_both(bytes, at, first, second);
    lemma_gaps_are_blank(style, depth);
    lemma_skip_part(bytes, at, first);
    let comma = at + first.len() + second.len();
    lemma_skip_part(bytes, comma + third.len(), fourth);
    if from + 1 < children.len() {
        lemma_holds_byte(bytes, comma, COMMA);
    } else {
        if fourth.len() > 0 {
            assert(bytes.subrange(comma, comma + fourth.len())[0] == bytes[comma]);
            assert(is_blank(fourth[0]));
        }
    }
}

/// The values of a list that is laid out are scanned as tokens, and the
/// tokens are parsed as the values.
pub proof fn lemma_elements_tokens(
    children: Seq<Tree>,
    style: Option<nat>,
    depth: nat,
    bytes: Seq<u8>,
    at: int,
    from: int,
    closing: Token,
    before: Seq<Tree>,
) -> (tokens: Seq<Token>)
    requires
        0 <= from < children.len(),
        forall|i: int| 0 <= i < children.len() ==> is_value(#[trigger] children[i]),
        bytes.len() <= usize::MAX,
        holds(bytes, at, laid_out_from(children, style, depth, from)),
        ends(bytes, at + laid_out_from(children, style, depth, from).len()),
        closing.token_type != TokenType::Comma,
    ensures
        tokens.len() > 0,
        follows(bytes, at, at + laid_out_from(children, style, depth, from).len(), tokens),
        elements_at(bytes, tokens + seq![closing], 0, before) == Ok::<(Seq<Tree>, int), Mismatch>(
            (before + children.skip(from), tokens.len() as int),
        ),
    decreases children, children.len() - from,
{
    lemma_item_held(bytes, at, children, style, depth, from);
    let child = at + indentation(style, depth).len();
    let comma = child + laid_out(children[from], style, depth).len();
    let rest = comma + comma_behind(children, from).len() + line_break(style).len();
    let end = at + laid_out_from(children, style, depth, from).len();
    let first = lemma_value_tokens(children[from], style, depth, bytes, child);
    if from + 1 < children.len() {
        lemma_mark_token(bytes, comma);
        let mark = mark_at(bytes, comma);
        let others = lemma_elements_tokens(
            children,
            style,
            depth,
            bytes,
            rest,
            from + 1,
            closing,
            before.push(children[from]),
        );
        assert(follows(bytes, comma, rest, seq![mark]));
        lemma_follows_on(bytes, child, comma, rest, first, seq![mark]);
        lemma_follows_on(bytes, child, rest, end, first + seq![mark], others);
        assert(before.push(children[from]) + children.skip(from + 1) =~= before + children.skip(
            from,
        ));
        lemma_elements_step(
            bytes,
            first,
            mark,
            others,
            closing,
            before,
            children[from],
            before + children.skip(from),
        );
        first + seq![mark] + others
    } else {
        assert(before.push(children[from]) =~= before + children.skip(from));
        lemma_elements_last(bytes, first, closing, before, children[from]);
        first
    }
}

/// A value that is laid out is scanned as tokens, and the tokens are
/// parsed as the value.
pub proof fn lemma_value_tokens(
    tree: Tree,
    style: Option<nat>,
    depth: nat,
    bytes: Seq<u8>,
    at: int,
) -> (tokens: Seq<Token>)
    requires
        is_value(tree),
        bytes.len() <= usize::MAX,
        holds(bytes, at, laid_out(tree, style, depth)),
        ends(bytes, at + laid_out(tree, style, depth).len()),
    ensures
        tokens.len() > 0,
        follows(bytes, at, at + laid_out(tree, style, depth).len(), tokens),
        value_at(bytes, tokens, 0) == Ok::<(Tree, int), Mismatch>((tree, tokens.len() as int)),
    decreases tree, 0int,
{
    match tree {
        Tree::Literal(text) => {
            let token = lemma_literal_token(bytes, at, text);
            seq![token]
        },
        Tree::Array(children) => {
            if children.len() == 0 {
                assert(children =~= Seq::<Tree>::empty());
                lemma_empty_tokens(bytes, at, LEFT_BRACKET, RIGHT_BRACKET)
            } else {
                lemma_array_tokens(children, style, depth, bytes, at)
            }
        },
        Tree::Object(children) => {
            if children.len() == 0 {
                assert(children =~= Seq::<Tree>::empty());
                lemma_empty_tokens(bytes, at, LEFT_BRACE, RIGHT_BRACE)
            } else {
                lemma_object_tokens(children, style, depth, bytes, at)
            }
        },
        Tree::Property(_, _) => Seq::empty(),
    }
}

/// A pair of brackets is scanned as two tokens, and the tokens are parsed
/// as the array or the object without children.
pub proof fn lemma_empty_tokens(bytes: Seq<u8>, at: int, opening: u8, closing: u8) -> (tokens:
    Seq<Token>)
    requires
        holds(bytes, at, seq![opening, closing]),
        (opening == LEFT_BRACKET && closing == RIGHT_BRACKET) || (opening == LEFT_BRACE
            && closing == RIGHT_BRACE),
    ensures
        tokens.len() > 0,
        follows(bytes, at, at + 2, tokens),
        opening == LEFT_BRACKET ==> value_at(bytes, tokens, 0) == Ok::<(Tree, int), Mismatch>(
            (Tree::Array(Seq::empty()), tokens.len() as int),
        ),
        opening == LEFT_BRACE ==> value_at(bytes, tokens, 0) == Ok::<(Tree, int), Mismatch>(
            (Tree::Object(Seq::empty()), tokens.len() as int),
        ),
{
    assert(seq![opening] + seq![closing] =~= seq![opening, closing]);
    lemma_holds_both(bytes, at, seq![opening], seq![closing]);
    lemma_holds_byte(bytes, at, opening);
    lemma_holds_byte(bytes, at + 1, closing);
    lemma_mark_token(bytes, at);
    lemma_mark_token(bytes, at + 1);
    lemma_follows_on(
        bytes,
        at,
        at + 1,
        at + 2,
        seq![mark_at(bytes, at)],
        seq![mark_at(bytes, at + 1)],
    );
    let tokens = seq![mark_at(bytes, at)] + seq![mark_at(bytes, at + 1)];
    if opening == LEFT_BRACKET {
        assert(array_at(bytes, tokens, 1) == Ok::<(Tree, int), Mismatch>(
            (Tree::Array(Seq::empty()), 2),
        ));
    } else {
        assert(object_at(bytes, tokens, 1) == Ok::<(Tree, int), Mismatch>(
            (Tree::Object(Seq::empty()), 2),
        ));
    }
    tokens
}

/// An array with children that is laid out is scanned as tokens, and the
/// tokens are parsed as the array.
pub proof fn lemma_array_tokens(
    children: Seq<Tree>,
    style: Option<nat>,
    depth: nat,
    bytes: Seq<u8>,
    at: int,
) -> (tokens: Seq<Token>)
    requires
        children.len() > 0,
        forall|i: int| 0 <= i < children.len() ==> is_value(#[trigger] children[i]),
        bytes.len() <= usize::MAX,
        holds(bytes, at, laid_out(Tree::Array(children), style, depth)),
        ends(bytes, at + laid_out(Tree::Array(children), style, depth).len()),
    ensures
        tokens.len() > 0,
        follows(bytes, at, at + laid_out(Tree::Array(children), style, depth).len(), tokens),
        value_at(bytes, tokens, 0) == Ok::<(Tree, int), Mismatch>(
            (Tree::Array(children), tokens.len() as int),
        ),
    decreases children, children.len() + 1,
{
    let list = laid_out_from(children, style, depth + 1, 0);
    lemma_brackets_held(bytes, at, style, depth, list, LEFT_BRACKET, RIGHT_BRACKET);
    let inside = at + 1 + line_break(style).len();
    let last = inside + list.len() + indentation(style, depth).len();
    lemma_mark_token(bytes, at);
    lemma_mark_token(bytes, last);
    let opening = mark_at(bytes, at);
    let closing = mark_at(bytes, last);
    let inner = lemma_elements_tokens(
        children,
        style,
        (depth + 1) as nat,
        bytes,
        inside,
        0,
        closing,
        Seq::empty(),
    );
    assert(follows(bytes, at, inside, seq![opening]));
    assert(follows(bytes, inside + list.len(), last + 1, seq![closing]));
    lemma_follows_on(bytes, at, inside, inside + list.len(), seq![opening], inner);
    lemma_follows_on(
        bytes,
        at,
        inside + list.len(),
        last + 1,
        seq![opening] + inner,
        seq![closing],
    );
    assert(Seq::<Tree>::empty() + children.skip(0) =~= children);
    lemma_array_parse(bytes, opening, inner, closing, children);
    seq![opening] + inner + seq![closing]
}

/// An object with children that is laid out is scanned as tokens, and the
/// tokens are parsed as the object.
pub proof fn lemma_object_tokens(
    children: Seq<Tree>,
    style: Option<nat>,
    depth: nat,
    bytes: Seq<u8>,
    at: int,
) -> (tokens: Seq<Token>)
    requires
        children.len() > 0,
        forall|i: int| 0 <= i < children.len() ==> is_member(#[trigger] children[i]),
        keys_of(children).no_duplicates(),
        bytes.len() <= usize::MAX,
        holds(bytes, at, laid_out(Tree::Object(children), style, depth)),
        ends(bytes, at + laid_out(Tree::Object(children), style, depth).len()),
    ensures
        tokens.len() > 0,
        follows(bytes, at, at + laid_out(Tree::Object(children), style, depth).len(), tokens),
        value_at(bytes, tokens, 0) == Ok::<(Tree, int), Mismatch>(
            (Tree::Object(children), tokens.len() as int),
        ),
    decreases children, children.len() + 1,
{
    let list = laid_out_from(children, style, depth + 1, 0);
    lemma_brackets_held(bytes, at, style, depth, list, LEFT_BRACE, RIGHT_BRACE);
    let inside = at + 1 + line_break(style).len();
    let last = inside + list.len() + indentation(style, depth).len();
    lemma_mark_token(bytes, at);
    lemma_mark_token(bytes, last);
    let opening = mark_at(bytes, at);
    let closing = mark_at(bytes, last);
    assert(Seq::<Tree>::empty() + children.skip(0) =~= children);
    let inner = lemma_members_tokens(
        children,
        style,
        (depth + 1) as nat,
        bytes,
        inside,
        0,
        closing,
        Seq::empty(),
    );
    assert(follows(bytes, at, inside, seq![opening]));
    assert(follows(bytes, inside + list.len(), last + 1, seq![closing]));
    lemma_follows_on(bytes, at, inside, inside + list.len(), seq![opening], inner);
    lemma_follows_on(
        bytes,
        at,
        inside + list.len(),
        last + 1,
        seq![opening] + inner,
        seq![closing],
    );
    lemma_object_parse(bytes, opening, inner, closing, children);
    seq![opening] + inner + seq![closing]
}

/// The properties of a list that is laid out are scanned as tokens, and
/// the tokens are parsed as the properties.
pub proof fn lemma_members_tokens(
    children: Seq<Tree>,
    style: Option<nat>,
    depth: nat,
    bytes: Seq<u8>,
    at: int,
    from: int,
    closing: Token,
    before: Seq<Tree>,
) -> (tokens: Seq<Token>)
    requires
        0 <= from < children.len(),
        forall|i: int| 0 <= i < children.len() ==> is_member(#[trigger] children[i]),
        keys_of(before + children.skip(from)).no_duplicates(),
        bytes.len() <= usize::MAX,
        holds(bytes, at, laid_out_from(children, style, depth, from)),
        ends(bytes, at + laid_out_from(children, style, depth, from).len()),
        closing.token_type != TokenType::Comma,
    ensures
        tokens.len() > 0,
        follows(bytes, at, at + laid_out_from(children, style, depth, from).len(), tokens),
        members_at(bytes, tokens + seq![closing], 0, before) == Ok::<(Seq<Tree>, int), Mismatch>(
            (before + children.skip(from), tokens.len() as int),
        ),
    decreases children, children.len() - from,
{
    lemma_item_held(bytes, at, children, style, depth, from);
    let child = at + indentation(style, depth).len();
    let comma = child + laid_out(children[from], style, depth).len();
    let rest = comma + comma_behind(children, from).len() + line_break(style).len();
    let end = at + laid_out_from(children, style, depth, from).len();
    let first = lemma_member_tokens(children[from], style, depth, bytes, child);
    let all = before + children.skip(from);
    assert(!keys_of(before).contains(key_text(children[from]))) by {
        if keys_of(before).contains(key_text(children[from])) {
            let i = choose|i: int|
                0 <= i < keys_of(before).len() && keys_of(before)[i] == key_text(children[from]);
            assert(keys_of(all)[i] == keys_of(before)[i]);
            assert(keys_of(all)[before.len() as int] == key_text(children[from]));
        }
    }
    if from + 1 < children.len() {
        lemma_mark_token(bytes, comma);
        let mark = mark_at(bytes, comma);
        assert(before.push(children[from]) + children.skip(from + 1) =~= all);
        let others = lemma_members_tokens(
            children,
            style,
            depth,
            bytes,
            rest,
            from + 1,
            closing,
            before.push(children[from]),
        );
        assert(follows(bytes, comma, rest, seq![mark]));
        lemma_follows_on(bytes, child, comma, rest, first, seq![mark]);
        lemma_follows_on(bytes, child, rest, end, first + seq![mark], others);
        lemma_members_step(bytes, first, mark, others, closing, before, children[from], all);
        first + seq![mark] + others
    } else {
        assert(before.push(children[from]) =~= all);
        lemma_members_last(bytes, first, closing, before, children[from]);
        first
    }
}

/// A property that is laid out is scanned as tokens, and the tokens are
/// parsed as the property.
pub proof fn lemma_member_tokens(
    tree: Tree,
    style: Option<nat>,
    depth: nat,
    bytes: Seq<u8>,
    at: int,
) -> (tokens: Seq<Token>)
    requires
        is_member(tree),
        bytes.len() <= usize::MAX,
        holds(bytes, at, laid_out(tree, style, depth)),
        ends(bytes, at + laid_out(tree, style, depth).len()),
    ensures
        tokens.len() > 0,
        follows(bytes, at, at + laid_out(tree, style, depth).len(), tokens),
        property_at(bytes, tokens, 0) == Ok::<(Tree, int), Mismatch>((tree, tokens.len() as int)),
    decreases tree, 0int,
{
    match tree {
        Tree::Property(key, value) => {
            match *key {
                Tree::Literal(text) => {
                    assert(laid_out(*key, style, depth) == encode_utf8(text));
                    let first = encode_utf8(text);
                    let second = seq![COLON];
                    let third = colon_gap(style);
                    let fourth = laid_out(*value, style, depth);
                    lemma_holds_both(bytes, at, first + second + third, fourth);
                    lemma_holds_both(bytes, at, first + second, third);
                    lemma_holds_both(bytes, at, first, second);
                    let colon = at + first.len();
                    lemma_holds_byte(bytes, colon, COLON);
                    lemma_gaps_are_blank(style, depth);
                    lemma_skip_part(bytes, colon + 1, third);
                    let inside = colon + 1 + third.len();
                    let name = lemma_literal_token(bytes, at, text);
                    lemma_mark_token(bytes, colon);
                    let mark = mark_at(bytes, colon);
                    let inner = lemma_value_tokens(*value, style, depth, bytes, inside);
                    assert(follows(bytes, colon, inside, seq![mark]));
                    lemma_follows_on(bytes, at, colon, inside, seq![name], seq![mark]);
                    lemma_follows_on(
                        bytes,
                        at,
                        inside,
                        inside + fourth.len(),
                        seq![name] + seq![mark],
                        inner,
                    );
                    assert(seq![name] + seq![mark] =~= seq![name, mark]);
                    lemma_property_parse(bytes, name, mark, inner, *value);
                    seq![name, mark] + inner
                },
                _ => Seq::empty(),
            }
        },
        _ => Seq::empty(),
    }
}

/// A value that is laid out is scanned and parsed as itself.
pub proof fn laid_out_value_is_parsed_back(tree: Tree, style: Option<nat>)
    requires
        is_value(tree),
        laid_out(tree, style, 0).len() <= usize::MAX,
    ensures
        tree_of(laid_out(tree, style, 0)) == Some(tree),
{
    let bytes = laid_out(tree, style, 0);
    assert(bytes.subrange(0, bytes.len() as int) =~= bytes);
    let tokens = lemma_value_tokens(tree, style, 0, bytes, 0);
    let end = token_at(bytes, TokenType::Eof, bytes.len() as int, bytes.len() as int);
    assert(tokens_from(bytes, bytes.len() as int) == Ok::<Seq<Token>, Failure>(seq![end]));
    assert(tokens_from(bytes, 0) == Ok::<Seq<Token>, Failure>(tokens + seq![end]));
    if bytes.len() == 0 {
        assert((tokens + seq![end]).len() == 1);
    }
    let all = tokens + seq![end];
    lemma_value_in_context(bytes, tokens, Seq::empty(), seq![end], 0);
    assert(Seq::<Token>::empty() + tokens + seq![end] =~= all);
    assert(all[tokens.len() as int] == end);
}

/// Whether the text of each token that is a value by itself is that token
/// and nothing else.
pub open spec fn readable(source: Seq<u8>, tokens: Seq<Token>) -> bool {
    forall|i: int|
        0 <= i < tokens.len() && (#[trigger] tokens[i]).token_type.is_scalar() ==> standalone(
            encode_utf8(token_text(source, tokens[i])),
        ) == Some(tokens[i].token_type)
}

/// The tokens of a source are readable.
pub proof fn lemma_scanned_tokens_are_readable(source: Seq<u8>)
    requires
        valid_utf8(source),
        source.len() <= usize::MAX,
        tokens_from(source, 0) is Ok,
    ensures
        readable(source, tokens_from(source, 0)->Ok_0),
{
    let tokens = tokens_from(source, 0)->Ok_0;
    lemma_scanned_tokens_are_lexemes(source, 0);
    is_char_boundary_start_end_of_seq(source);
    lemma_scanned_tokens_fit(source, 0);
    assert forall|i: int|
        0 <= i < tokens.len() && (#[trigger] tokens[i]).token_type.is_scalar() implies standalone(
        encode_utf8(token_text(source, tokens[i])),
    ) == Some(tokens[i].token_type) by {
        let token = tokens[i];
        let start = token.indices.0 as int;
        let end = token.indices.1 as int;
        let word = source.subrange(start, end);
        assert(token_fits(source, token));
        lemma_boundary_in_prefix(source, start, end);
        valid_utf8_split(source.subrange(0, end), start);
        assert(source.subrange(0, end).subrange(start, end) =~= word);
        decode_utf8_encode_utf8(word);
        assert(same_bytes(source, start, word, 0, end - start));
        lemma_lexeme_transfer(source, start, word, 0, end - start, token.token_type);
    }
}

/// What is parsed from readable tokens is a JSON value.
pub proof fn lemma_parsed_is_value(source: Seq<u8>, tokens: Seq<Token>, at: int)
    requires
        readable(source, tokens),
    ensures
        value_at(source, tokens, at) matches Ok((tree, _)) ==> is_value(tree),
        property_at(source, tokens, at) matches Ok((tree, _)) ==> is_member(tree),
    decreases tokens.len() - at, 0int,
{
    if 0 <= at < tokens.len() {
        if tokens[at].token_type == TokenType::LeftBrace {
            lemma_parsed_object_is_value(source, tokens, at + 1);
        } else if tokens[at].token_type == TokenType::LeftBracket {
            lemma_parsed_array_is_value(source, tokens, at + 1);
        }
        if at + 2 < tokens.len() {
            lemma_parsed_is_value(source, tokens, at + 2);
        }
    }
}

/// An array that is parsed from readable tokens is a JSON value.
pub proof fn lemma_parsed_array_is_value(source: Seq<u8>, tokens: Seq<Token>, at: int)
    requires
        readable(source, tokens),
    ensures
        array_at(source, tokens, at) matches Ok((tree, _)) ==> is_value(tree),
    decreases tokens.len() - at, 2int,
{
    if 0 <= at < tokens.len() && tokens[at].token_type != TokenType::RightBracket {
        lemma_parsed_elements_are_values(source, tokens, at, Seq::empty());
    }
}

/// An object that is parsed from readable tokens is a JSON value.
pub proof fn lemma_parsed_object_is_value(source: Seq<u8>, tokens: Seq<Token>, at: int)
    requires
        readable(source, tokens),
    ensures
        object_at(source, tokens, at) matches Ok((tree, _)) ==> is_value(tree),
    decreases tokens.len() - at, 2int,
{
    assert(keys_of(Seq::<Tree>::empty()) =~= Seq::<Seq<char>>::empty());
    if 0 <= at < tokens.len() && tokens[at].token_type != TokenType::RightBrace {
        lemma_parsed_members_are_members(source, tokens, at, Seq::empty());
        if members_at(source, tokens, at, Seq::empty()) is Ok {
            lemma_members_are_distinct(source, tokens, at, Seq::empty());
        }
    }
}

/// The values that are parsed from readable tokens are JSON values.
pub proof fn lemma_parsed_elements_are_values(
    source: Seq<u8>,
    tokens: Seq<Token>,
    at: int,
    before: Seq<Tree>,
)
    requires
        readable(source, tokens),
        forall|i: int| 0 <= i < before.len() ==> is_value(#[trigger] before[i]),
    ensures
        elements_at(source, tokens, at, before) matches Ok((all, _)) ==> forall|i: int|
            0 <= i < all.len() ==> is_value(#[trigger] all[i]),
    decreases tokens.len() - at, 1int,
{
    if 0 <= at < tokens.len() {
        lemma_parsed_is_value(source, tokens, at);
        if let Ok((element, next)) = value_at(source, tokens, at) {
            let grown = before.push(element);
            assert forall|i: int| 0 <= i < grown.len() implies is_value(#[trigger] grown[i]) by {
                if i < before.len() {
                    assert(grown[i] == before[i]);
                }
            }
            if at < next < tokens.len() && tokens[next].token_type == TokenType::Comma {
                lemma_parsed_elements_are_values(source, tokens, next + 1, grown);
            }
        }
    }
}

/// The properties that are parsed from readable tokens are properties of
/// JSON values.
pub proof fn lemma_parsed_members_are_members(
    source: Seq<u8>,
    tokens: Seq<Token>,
    at: int,
    before: Seq<Tree>,
)
    requires
        readable(source, tokens),
        forall|i: int| 0 <= i < before.len() ==> is_member(#[trigger] before[i]),
    ensures
        members_at(source, tokens, at, before) matches Ok((all, _)) ==> forall|i: int|
            0 <= i < all.len() ==> is_member(#[trigger] all[i]),
    decreases tokens.len() - at, 1int,
{
    if 0 <= at < tokens.len() {
        lemma_parsed_is_value(source, tokens, at);
        if let Ok((property, next)) = property_at(source, tokens, at) {
            let grown = before.push(property);
            assert forall|i: int| 0 <= i < grown.len() implies is_member(#[trigger] grown[i]) by {
                if i < before.len() {
                    assert(grown[i] == before[i]);
                }
            }
            if at < next < tokens.len() && tokens[next].token_type == TokenType::Comma {
                lemma_parsed_members_are_members(source, tokens, next + 1, grown);
            }
        }
    }
}

/// The tree of a source is a JSON value.
pub proof fn parsed_tree_is_a_value(source: Seq<u8>)
    requires
        valid_utf8(source),
        source.len() <= usize::MAX,
        tree_of(source) is Some,
    ensures
        is_value(tree_of(source)->Some_0),
{
    let tokens = tokens_from(source, 0)->Ok_0;
    lemma_scanned_tokens_are_readable(source);
    lemma_parsed_is_value(source, tokens, 0);
}

/// Formatting the tree of a source and then scanning and parsing the text
/// gives the tree again, whatever the indentation.
pub proof fn formatted_tree_is_parsed_back(source: Seq<u8>, space: nat)
    requires
        valid_utf8(source),
        source.len() <= usize::MAX,
        tree_of(source) is Some,
        encode_utf8(format_text(tree_of(source)->Some_0, space, 0)).len()
            <= usize::MAX,
    ensures
        tree_of(encode_utf8(format_text(tree_of(source)->Some_0, space, 0)))
            == tree_of(source),
{
    let tree = tree_of(source)->Some_0;
    parsed_tree_is_a_value(source);
    lemma_rendered_bytes(tree, Some(space), 0);
    laid_out_value_is_parsed_back(tree, Some(space));
}

/// Minifying the tree of a source and then scanning and parsing the text
/// gives the tree again; so minifying that tree gives the same text once
/// more.
pub proof fn minified_tree_is_parsed_back(source: Seq<u8>)
    requires
        valid_utf8(source),
        source.len() <= usize::MAX,
        tree_of(source) is Some,
        encode_utf8(minify_text(tree_of(source)->Some_0)).len() <= usize::MAX,
    ensures
        tree_of(encode_utf8(minify_text(tree_of(source)->Some_0))) == tree_of(
            source,
        ),
        minify_text(
            tree_of(encode_utf8(minify_text(tree_of(source)->Some_0)))->Some_0,
        ) == minify_text(tree_of(source)->Some_0),
{
    let tree = tree_of(source)->Some_0;
    parsed_tree_is_a_value(source);
    lemma_rendered_bytes(tree, None, 0);
    laid_out_value_is_parsed_back(tree, None);
}

} // verus!
