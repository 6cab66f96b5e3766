//! The grammar of JSON over tokens, and the recursive-descent parser for it.

use vstd::prelude::*;
use vstd::string::StringSliceAdditionalSpecFns;
use vstd::utf8::{
    decode_utf8, encode_utf8_decode_utf8, encode_utf8_valid_utf8, is_char_boundary,
    is_char_boundary_iff_not_is_continuation_byte, is_char_boundary_start_end_of_seq, valid_utf8,
    valid_utf8_split,
};
use crate::error_preview::{preview_text, ErrorPreview};
use crate::grammar::scan_result;
use crate::node::{lemma_list_views, trees, Node, Tree};
use crate::parser_error::ParserError;
use crate::property_map::PropertyMap;
use crate::token::Token;
use crate::token_type::TokenType;

verus! {

/// Why the tokens are no JSON value.
pub enum Mismatch {
    /// The token at the position `at` is not what the grammar expects there,
    /// which `expected` says in words. Where the tokens have run out, `at`
    /// is their number.
    Unexpected { expected: Seq<char>, at: int },
    /// The property whose key is the token at the position `at` has the key
    /// of an earlier property of the same object.
    Duplicate { at: int },
}

/// The text of `token`: the source between its byte offsets.
pub open spec fn token_text(source: Seq<u8>, token: Token) -> Seq<char> {
    decode_utf8(source.subrange(token.indices.0 as int, token.indices.1 as int))
}

/// Whether `token` lies within the source, from the beginning of a
/// character to the beginning of a character.
pub open spec fn token_fits(source: Seq<u8>, token: Token) -> bool {
    &&& token.indices.0 <= token.indices.1 <= source.len()
    &&& is_char_boundary(source, token.indices.0 as int)
    &&& is_char_boundary(source, token.indices.1 as int)
}

/// Whether each of the tokens lies within the source.
pub open spec fn tokens_fit(source: Seq<u8>, tokens: Seq<Token>) -> bool {
    forall|i: int| 0 <= i < tokens.len() ==> token_fits(source, #[trigger] tokens[i])
}

/// The key of a property, as it is written; of another tree, nothing.
pub open spec fn key_text(tree: Tree) -> Seq<char> {
    match tree {
        Tree::Property(key, _) => match *key {
            Tree::Literal(text) => text,
            _ => Seq::empty(),
        },
        _ => Seq::empty(),
    }
}

/// The keys of the given properties, in their order.
pub open spec fn keys_of(properties: Seq<Tree>) -> Seq<Seq<char>> {
    Seq::new(properties.len(), |i: int| key_text(properties[i]))
}

pub open spec fn expected_value() -> Seq<char> {
    "Expected string|number|bool|object|array"@
}

pub open spec fn expected_key() -> Seq<char> {
    "Object keys must be of type string"@
}

pub open spec fn expected_colon() -> Seq<char> {
    "Object key-values must be separated by a semicolon"@
}

pub open spec fn expected_object_end() -> Seq<char> {
    "Expected object to be terminated"@
}

pub open spec fn expected_array_end() -> Seq<char> {
    "Expected array to be terminated"@
}

pub open spec fn expected_end() -> Seq<char> {
    "Expected end of input"@
}

/// Steps over the token at `at`, which has to be of the given type; gives
/// the position behind it.
pub open spec fn expect(tokens: Seq<Token>, at: int, token_type: TokenType, expected: Seq<char>)
    -> Result<int, Mismatch> {
    if 0 <= at < tokens.len() {
        if tokens[at].token_type == token_type {
            Ok(at + 1)
        } else {
            Err(Mismatch::Unexpected { expected, at })
        }
    } else {
        Err(Mismatch::Unexpected { expected: Seq::empty(), at: tokens.len() as int })
    }
}

/// The value that begins with the token at `at`, and the position behind
/// it: a string, a number, `true`, `false` or `null` as a literal with the
/// text of its token, or an object, or an array.
pub open spec fn value_at(source: Seq<u8>, tokens: Seq<Token>, at: int) -> Result<
    (Tree, int),
    Mismatch,
>
    decreases tokens.len() - at, 1int,
{
    if 0 <= at < tokens.len() {
        let token = tokens[at];
        if token.token_type.is_scalar() {
            Ok((Tree::Literal(token_text(source, token)), at + 1))
        } else if token.token_type == TokenType::LeftBrace {
            object_at(source, tokens, at + 1)
        } else if token.token_type == TokenType::LeftBracket {
            array_at(source, tokens, at + 1)
        } else {
            Err(Mismatch::Unexpected { expected: expected_value(), at })
        }
    } else {
        Err(Mismatch::Unexpected { expected: Seq::empty(), at: tokens.len() as int })
    }
}

/// The array whose opening bracket stands before `at`: values with commas
/// between them, then the closing bracket.
pub open spec fn array_at(source: Seq<u8>, tokens: Seq<Token>, at: int) -> Result<
    (Tree, int),
    Mismatch,
>
    decreases tokens.len() - at, 3int,
{
    if 0 <= at < tokens.len() && tokens[at].token_type != TokenType::RightBracket {
        match elements_at(source, tokens, at, Seq::empty()) {
            Ok((elements, next)) => match expect(
                tokens,
                next,
                TokenType::RightBracket,
                expected_array_end(),
            ) {
                Ok(end) => Ok((Tree::Array(elements), end)),
                Err(mismatch) => Err(mismatch),
            },
            Err(mismatch) => Err(mismatch),
        }
    } else {
        match expect(tokens, at, TokenType::RightBracket, expected_array_end()) {
            Ok(end) => Ok((Tree::Array(Seq::empty()), end)),
            Err(mismatch) => Err(mismatch),
        }
    }
}

/// The values of an array from `at` on, behind those in `before`: a value,
/// and after each comma another.
pub open spec fn elements_at(source: Seq<u8>, tokens: Seq<Token>, at: int, before: Seq<Tree>)
    -> Result<(Seq<Tree>, int), Mismatch>
    decreases tokens.len() - at, 2int,
{
    if 0 <= at < tokens.len() {
        match value_at(source, tokens, at) {
            Ok((element, next)) => {
                if at < next < tokens.len() && tokens[next].token_type == TokenType::Comma {
                    elements_at(source, tokens, next + 1, before.push(element))
                } else {
                    Ok((before.push(element), next))
                }
            },
            Err(mismatch) => Err(mismatch),
        }
    } else {
        Err(Mismatch::Unexpected { expected: Seq::empty(), at: tokens.len() as int })
    }
}

/// The object whose opening brace stands before `at`: properties with
/// commas between them, then the closing brace.
pub open spec fn object_at(source: Seq<u8>, tokens: Seq<Token>, at: int) -> Result<
    (Tree, int),
    Mismatch,
>
    decreases tokens.len() - at, 3int,
{
    if 0 <= at < tokens.len() && tokens[at].token_type != TokenType::RightBrace {
        match members_at(source, tokens, at, Seq::empty()) {
            Ok((members, next)) => match expect(
                tokens,
                next,
                TokenType::RightBrace,
                expected_object_end(),
            ) {
                Ok(end) => Ok((Tree::Object(members), end)),
                Err(mismatch) => Err(mismatch),
            },
            Err(mismatch) => Err(mismatch),
        }
    } else {
        match expect(tokens, at, TokenType::RightBrace, expected_object_end()) {
            Ok(end) => Ok((Tree::Object(Seq::empty()), end)),
            Err(mismatch) => Err(mismatch),
        }
    }
}

/// The properties of an object from `at` on, behind those in `before`: a
/// property, and after each comma another, none with the key of one
/// before it.
pub open spec fn members_at(source: Seq<u8>, tokens: Seq<Token>, at: int, before: Seq<Tree>)
    -> Result<(Seq<Tree>, int), Mismatch>
    decreases tokens.len() - at, 2int,
{
    if 0 <= at < tokens.len() {
        match property_at(source, tokens, at) {
            Ok((property, next)) => {
                if keys_of(before).contains(key_text(property)) {
                    Err(Mismatch::Duplicate { at })
                } else if at < next < tokens.len() && tokens[next].token_type
                    == TokenType::Comma {
                    members_at(source, tokens, next + 1, before.push(property))
                } else {
                    Ok((before.push(property), next))
                }
            },
            Err(mismatch) => Err(mismatch),
        }
    } else {
        Err(Mismatch::Unexpected { expected: Seq::empty(), at: tokens.len() as int })
    }
}

/// The property that begins at `at`: a string as the key, a colon and a
/// value.
pub open spec fn property_at(source: Seq<u8>, tokens: Seq<Token>, at: int) -> Result<
    (Tree, int),
    Mismatch,
>
    decreases tokens.len() - at, 1int,
{
    match expect(tokens, at, TokenType::String, expected_key()) {
        Ok(colon) => match expect(tokens, colon, TokenType::Colon, expected_colon()) {
            Ok(value) => match value_at(source, tokens, value) {
                Ok((tree, next)) => Ok(
                    (
                        Tree::Property(
                            Box::new(Tree::Literal(token_text(source, tokens[at]))),
                            Box::new(tree),
                        ),
                        next,
                    ),
                ),
                Err(mismatch) => Err(mismatch),
            },
            Err(mismatch) => Err(mismatch),
        },
        Err(mismatch) => Err(mismatch),
    }
}

/// What parsing gives: the one value that the tokens hold from `at` on to
/// the token that ends the input.
pub open spec fn parse_result(source: Seq<u8>, tokens: Seq<Token>, at: int) -> Result<
    Tree,
    Mismatch,
> {
    match value_at(source, tokens, at) {
        Ok((tree, next)) => match expect(tokens, next, TokenType::Eof, expected_end()) {
            Ok(_) => Ok(tree),
            Err(mismatch) => Err(mismatch),
        },
        Err(mismatch) => Err(mismatch),
    }
}

/// What scanning the source and then parsing its tokens gives: the tree of
/// the one value that the source holds, if it holds one.
pub open spec fn tree_of(source: Seq<u8>) -> Option<Tree> {
    match scan_result(source) {
        Ok(tokens) => match parse_result(source, tokens, 0) {
            Ok(tree) => Some(tree),
            Err(_) => None,
        },
        Err(_) => None,
    }
}

/// Whether `error` tells of `mismatch`: an unexpected token with what was
/// expected, the text of its type and the preview of the source where it
/// begins, or nothing at all where the tokens have run out; a duplicate
/// with the key as it is written and the preview of the source at the key.
pub open spec fn explains(
    source: Seq<u8>,
    tokens: Seq<Token>,
    mismatch: Mismatch,
    error: ParserError,
) -> bool {
    match mismatch {
        Mismatch::Unexpected { expected, at } => error matches ParserError::UnexpectedToken {
            expected: header,
            found,
            error_preview,
        } && header@ == expected && if 0 <= at < tokens.len() {
            found@ == tokens[at].token_type.text() && error_preview@ == token_preview(
                source,
                tokens[at],
            )
        } else {
            found@ == Seq::<char>::empty() && error_preview@ == Seq::<char>::empty()
        },
        Mismatch::Duplicate { at } => error matches ParserError::DuplicateProperty {
            property,
            error_preview,
        } && property@ == token_text(source, tokens[at]) && error_preview@ == token_preview(
            source,
            tokens[at],
        ),
    }
}

/// Where the cursor of the parser stands when it has found `mismatch`: at
/// the token that was not expected, or behind the property whose key came
/// again.
pub open spec fn cursor_at(source: Seq<u8>, tokens: Seq<Token>, mismatch: Mismatch) -> int {
    match mismatch {
        Mismatch::Unexpected { at, .. } => at,
        Mismatch::Duplicate { at } => match property_at(source, tokens, at) {
            Ok((_, next)) => next,
            Err(_) => at,
        },
    }
}

/// Where the cursor stands when the parser has parsed from `at` on: behind
/// the token that ends the input, or where it has found the mismatch.
pub open spec fn parse_end(source: Seq<u8>, tokens: Seq<Token>, at: int) -> int {
    match value_at(source, tokens, at) {
        Ok((_, next)) => match expect(tokens, next, TokenType::Eof, expected_end()) {
            Ok(end) => end,
            Err(mismatch) => cursor_at(source, tokens, mismatch),
        },
        Err(mismatch) => cursor_at(source, tokens, mismatch),
    }
}

/// The preview of the source where `token` begins.
pub open spec fn token_preview(source: Seq<u8>, token: Token) -> Seq<char> {
    preview_text(
        source,
        token.indices.0 as int,
        token.column_indices.0 as nat,
        token.line_number as nat,
    )
}

/// The position of the token with which the property of the given number
/// begins, among the properties that begin at `at`.
pub open spec fn member_place(source: Seq<u8>, tokens: Seq<Token>, at: int, number: int) -> int
    decreases number,
{
    if number <= 0 {
        at
    } else {
        match property_at(source, tokens, member_place(source, tokens, at, number - 1)) {
            Ok((_, next)) => next + 1,
            Err(_) => tokens.len() as int,
        }
    }
}

/// A value ends behind the place where it begins, and so does a property.
pub proof fn lemma_value_advances(source: Seq<u8>, tokens: Seq<Token>, at: int)
    ensures
        value_at(source, tokens, at) matches Ok((_, next)) ==> at < next <= tokens.len(),
        property_at(source, tokens, at) matches Ok((_, next)) ==> at + 2 < next <= tokens.len(),
    decreases tokens.len() - at, 0int,
{
    if 0 <= at < tokens.len() {
        if tokens[at].token_type == TokenType::LeftBrace || tokens[at].token_type
            == TokenType::LeftBracket {
            lemma_list_advances(source, tokens, at + 1, Seq::empty());
        }
        if at + 2 < tokens.len() {
            lemma_value_advances(source, tokens, at + 2);
        }
    }
}

/// The values of an array and the properties of an object end behind the
/// place where they begin, within the tokens.
pub proof fn lemma_list_advances(source: Seq<u8>, tokens: Seq<Token>, at: int, before: Seq<Tree>)
    ensures
        elements_at(source, tokens, at, before) matches Ok((_, next)) ==> at < next
            <= tokens.len(),
        members_at(source, tokens, at, before) matches Ok((_, next)) ==> at < next
            <= tokens.len(),
        array_at(source, tokens, at) matches Ok((_, next)) ==> at < next <= tokens.len(),
        object_at(source, tokens, at) matches Ok((_, next)) ==> at < next <= tokens.len(),
    decreases tokens.len() - at, 1int,
{
    if 0 <= at < tokens.len() {
        lemma_value_advances(source, tokens, at);
        if let Ok((element, next)) = value_at(source, tokens, at) {
            if next < tokens.len() {
                lemma_list_advances(source, tokens, next + 1, before.push(element));
                lemma_list_advances(source, tokens, next + 1, Seq::<Tree>::empty().push(element));
            }
        }
        if let Ok((property, next)) = property_at(source, tokens, at) {
            if next < tokens.len() {
                lemma_list_advances(source, tokens, next + 1, before.push(property));
                lemma_list_advances(source, tokens, next + 1, Seq::<Tree>::empty().push(property));
            }
        }
    }
}

/// The properties that the parser accepts come behind those that were
/// there, and their keys differ from one another.
pub proof fn lemma_members_are_distinct(
    source: Seq<u8>,
    tokens: Seq<Token>,
    at: int,
    before: Seq<Tree>,
)
    requires
        keys_of(before).no_duplicates(),
        members_at(source, tokens, at, before) is Ok,
    ensures
        keys_of(members_at(source, tokens, at, before)->Ok_0.0).no_duplicates(),
        members_at(source, tokens, at, before)->Ok_0.0.len() > before.len(),
        members_at(source, tokens, at, before)->Ok_0.0.take(before.len() as int) == before,
    decreases tokens.len() - at,
{
    let (property, next) = property_at(source, tokens, at)->Ok_0;
    let grown = before.push(property);
    assert(keys_of(grown) =~= keys_of(before).push(key_text(property)));
    assert(keys_of(grown).no_duplicates()) by {
        assert forall|i: int, j: int|
            0 <= i < keys_of(grown).len() && 0 <= j < keys_of(grown).len() && i != j implies keys_of(
            grown,
        )[i] != keys_of(grown)[j] by {
            if i < before.len() && j < before.len() {
                assert(keys_of(before)[i] != keys_of(before)[j]);
            } else if i < before.len() {
                assert(keys_of(before)[i] != key_text(property));
            } else {
                assert(keys_of(before)[j] != key_text(property));
            }
        }
    }
    assert(grown.take(before.len() as int) =~= before);
    if at < next < tokens.len() && tokens[next].token_type == TokenType::Comma {
        lemma_members_are_distinct(source, tokens, next + 1, grown);
        let all = members_at(source, tokens, next + 1, grown)->Ok_0.0;
        assert(all.take(before.len() as int) =~= all.take(grown.len() as int).take(
            before.len() as int,
        ));
    }
}

/// No two properties of a parsed object have the same key.
pub proof fn object_keys_are_distinct(source: Seq<u8>, tokens: Seq<Token>, at: int)
    requires
        object_at(source, tokens, at) is Ok,
    ensures
        object_at(source, tokens, at)->Ok_0.0 matches Tree::Object(children) && keys_of(
            children,
        ).no_duplicates(),
{
    if 0 <= at < tokens.len() && tokens[at].token_type != TokenType::RightBrace {
        assert(keys_of(Seq::<Tree>::empty()) =~= Seq::<Seq<char>>::empty());
        lemma_members_are_distinct(source, tokens, at, Seq::empty());
    } else {
        assert(keys_of(Seq::<Tree>::empty()) =~= Seq::<Seq<char>>::empty());
    }
}

/// The place of a property is the place of the one before it, counted from
/// the second property on.
proof fn lemma_place_shift(source: Seq<u8>, tokens: Seq<Token>, at: int, number: int)
    requires
        number >= 1,
    ensures
        member_place(source, tokens, at, number) == member_place(
            source,
            tokens,
            member_place(source, tokens, at, 1),
            number - 1,
        ),
    decreases number,
{
    if number > 1 {
        lemma_place_shift(source, tokens, at, number - 1);
    } else {
        assert(member_place(source, tokens, at, 0) == at);
    }
}

/// The children of a parsed object are its properties in the order of the
/// tokens: the child of each number is the property that begins at the
/// place of that number, and the places follow one another.
pub proof fn lemma_members_in_order(
    source: Seq<u8>,
    tokens: Seq<Token>,
    at: int,
    before: Seq<Tree>,
    number: int,
)
    requires
        members_at(source, tokens, at, before) is Ok,
        0 <= number < members_at(source, tokens, at, before)->Ok_0.0.len() - before.len(),
    ensures
        ({
            let (all, end) = members_at(source, tokens, at, before)->Ok_0;
            let place = member_place(source, tokens, at, number);
            &&& at <= place < end
            &&& property_at(source, tokens, place) matches Ok((property, next)) && property
                == all[before.len() + number] && place < next <= end
            &&& number > 0 ==> member_place(source, tokens, at, number - 1) < place
        }),
    decreases number,
{
    let (all, end) = members_at(source, tokens, at, before)->Ok_0;
    let (property, next) = property_at(source, tokens, at)->Ok_0;
    let grown = before.push(property);
    lemma_list_advances(source, tokens, at, before);
    lemma_value_advances(source, tokens, at);
    lemma_members_prefix(source, tokens, at, before);
    let more = at < next < tokens.len() && tokens[next].token_type == TokenType::Comma;
    if more {
        lemma_members_prefix(source, tokens, next + 1, grown);
        lemma_list_advances(source, tokens, next + 1, grown);
        assert(all.take(grown.len() as int)[before.len() as int] == property);
    }
    if number > 0 {
        assert(more);
        assert(member_place(source, tokens, at, 0) == at);
        assert(member_place(source, tokens, at, 1) == next + 1);
        lemma_place_shift(source, tokens, at, number);
        lemma_members_in_order(source, tokens, next + 1, grown, number - 1);
        lemma_members_in_order(source, tokens, at, before, number - 1);
    }
}

/// The children of a parsed object are its properties in the order of the
/// tokens: each child is the property that begins at its place, and the
/// places of the children follow one another from the opening brace to the
/// closing one.
pub proof fn object_keeps_the_order_of_the_tokens(
    source: Seq<u8>,
    tokens: Seq<Token>,
    at: int,
)
    requires
        object_at(source, tokens, at) is Ok,
    ensures
        ({
            let (object, end) = object_at(source, tokens, at)->Ok_0;
            object matches Tree::Object(children) && forall|i: int|
                0 <= i < children.len() ==> {
                    let place = #[trigger] member_place(source, tokens, at, i);
                    &&& at <= place < end
                    &&& property_at(source, tokens, place) matches Ok((property, _)) && property
                        == children[i]
                    &&& i > 0 ==> member_place(source, tokens, at, i - 1) < place
                }
        }),
{
    if 0 <= at < tokens.len() && tokens[at].token_type != TokenType::RightBrace {
        let (children, next) = members_at(source, tokens, at, Seq::empty())->Ok_0;
        assert forall|i: int| 0 <= i < children.len() implies {
            let place = #[trigger] member_place(source, tokens, at, i);
            &&& at <= place < next
            &&& property_at(source, tokens, place) matches Ok((property, _)) && property
                == children[i]
            &&& i > 0 ==> member_place(source, tokens, at, i - 1) < place
        } by {
            lemma_members_in_order(source, tokens, at, Seq::empty(), i);
        }
    }
}

/// The properties that the parser accepts come behind those that were
/// there.
proof fn lemma_members_prefix(source: Seq<u8>, tokens: Seq<Token>, at: int, before: Seq<Tree>)
    requires
        members_at(source, tokens, at, before) is Ok,
    ensures
        members_at(source, tokens, at, before)->Ok_0.0.len() > before.len(),
        members_at(source, tokens, at, before)->Ok_0.0.take(before.len() as int) == before,
    decreases tokens.len() - at,
{
    let (property, next) = property_at(source, tokens, at)->Ok_0;
    let grown = before.push(property);
    assert(grown.take(before.len() as int) =~= before);
    if at < next < tokens.len() && tokens[next].token_type == TokenType::Comma {
        lemma_members_prefix(source, tokens, next + 1, grown);
        let all = members_at(source, tokens, next + 1, grown)->Ok_0.0;
        assert(all.take(before.len() as int) =~= all.take(grown.len() as int).take(
            before.len() as int,
        ));
    }
}

/// A value and a property among more tokens are what they are by
/// themselves, further on by the tokens that stand before them.
pub proof fn lemma_value_in_context(
    source: Seq<u8>,
    inner: Seq<Token>,
    left: Seq<Token>,
    right: Seq<Token>,
    at: int,
)
    ensures
        value_at(source, inner, at) matches Ok((tree, next)) ==> value_at(
            source,
            left + inner + right,
            left.len() + at,
        ) == Ok::<(Tree, int), Mismatch>((tree, left.len() + next)),
        property_at(source, inner, at) matches Ok((tree, next)) ==> property_at(
            source,
            left + inner + right,
            left.len() + at,
        ) == Ok::<(Tree, int), Mismatch>((tree, left.len() + next)),
    decreases inner.len() - at, 0int,
{
    let whole = left + inner + right;
    if 0 <= at < inner.len() {
        assert(whole[left.len() + at] == inner[at]);
        if inner[at].token_type == TokenType::LeftBrace || inner[at].token_type
            == TokenType::LeftBracket {
            lemma_brackets_in_context(source, inner, left, right, at + 1);
        }
        if at + 1 < inner.len() {
            assert(whole[left.len() + (at + 1)] == inner[at + 1]);
        }
        if at + 2 < inner.len() {
            lemma_value_in_context(source, inner, left, right, at + 2);
        }
    }
}

/// An array and an object among more tokens are what they are by
/// themselves.
pub proof fn lemma_brackets_in_context(
    source: Seq<u8>,
    inner: Seq<Token>,
    left: Seq<Token>,
    right: Seq<Token>,
    at: int,
)
    ensures
        array_at(source, inner, at) matches Ok((tree, next)) ==> array_at(
            source,
            left + inner + right,
            left.len() + at,
        ) == Ok::<(Tree, int), Mismatch>((tree, left.len() + next)),
        object_at(source, inner, at) matches Ok((tree, next)) ==> object_at(
            source,
            left + inner + right,
            left.len() + at,
        ) == Ok::<(Tree, int), Mismatch>((tree, left.len() + next)),
    decreases inner.len() - at, 2int,
{
    let whole = left + inner + right;
    if 0 <= at < inner.len() {
        assert(whole[left.len() + at] == inner[at]);
        lemma_elements_in_context(source, inner, left, right, at, Seq::empty());
        lemma_members_in_context(source, inner, left, right, at, Seq::empty());
        lemma_list_advances(source, inner, at, Seq::empty());
        if let Ok((elements, next)) = elements_at(source, inner, at, Seq::empty()) {
            if next < inner.len() {
                assert(whole[left.len() + next] == inner[next]);
            }
        }
        if let Ok((members, next)) = members_at(source, inner, at, Seq::empty()) {
            if next < inner.len() {
                assert(whole[left.len() + next] == inner[next]);
            }
        }
    }
}

/// The values of an array among more tokens are what they are by
/// themselves, if they do not end where the tokens end.
pub proof fn lemma_elements_in_context(
    source: Seq<u8>,
    inner: Seq<Token>,
    left: Seq<Token>,
    right: Seq<Token>,
    at: int,
    before: Seq<Tree>,
)
    ensures
        elements_at(source, inner, at, before) matches Ok((all, next)) ==> next < inner.len()
            ==> elements_at(source, left + inner + right, left.len() + at, before) == Ok::<
            (Seq<Tree>, int),
            Mismatch,
        >((all, left.len() + next)),
    decreases inner.len() - at, 1int,
{
    let whole = left + inner + right;
    if 0 <= at < inner.len() {
        assert(whole[left.len() + at] == inner[at]);
        lemma_value_in_context(source, inner, left, right, at);
        lemma_value_advances(source, inner, at);
        if let Ok((element, next)) = value_at(source, inner, at) {
            if next < inner.len() {
                assert(whole[left.len() + next] == inner[next]);
                lemma_elements_in_context(
                    source,
                    inner,
                    left,
                    right,
                    next + 1,
                    before.push(element),
                );
            }
        }
    }
}

/// The properties of an object among more tokens are what they are by
/// themselves, if they do not end where the tokens end.
pub proof fn lemma_members_in_context(
    source: Seq<u8>,
    inner: Seq<Token>,
    left: Seq<Token>,
    right: Seq<Token>,
    at: int,
    before: Seq<Tree>,
)
    ensures
        members_at(source, inner, at, before) matches Ok((all, next)) ==> next < inner.len()
            ==> members_at(source, left + inner + right, left.len() + at, before) == Ok::<
            (Seq<Tree>, int),
            Mismatch,
        >((all, left.len() + next)),
    decreases inner.len() - at, 1int,
{
    let whole = left + inner + right;
    if 0 <= at < inner.len() {
        assert(whole[left.len() + at] == inner[at]);
        lemma_value_in_context(source, inner, left, right, at);
        lemma_value_advances(source, inner, at);
        if let Ok((property, next)) = property_at(source, inner, at) {
            if next < inner.len() {
                assert(whole[left.len() + next] == inner[next]);
                lemma_members_in_context(
                    source,
                    inner,
                    left,
                    right,
                    next + 1,
                    before.push(property),
                );
            }
        }
    }
}

/// A place where a character begins in the source begins one in each part
/// of the source that reaches beyond it.
pub proof fn lemma_boundary_in_prefix(source: Seq<u8>, at: int, end: int)
    requires
        valid_utf8(source),
        0 <= at <= end <= source.len(),
        is_char_boundary(source, at),
        is_char_boundary(source, end),
    ensures
        valid_utf8(source.subrange(0, end)),
        is_char_boundary(source.subrange(0, end), at),
{
    let head = source.subrange(0, end);
    valid_utf8_split(source, end);
    is_char_boundary_start_end_of_seq(head);
    if at < end {
        is_char_boundary_iff_not_is_continuation_byte(source, at);
        is_char_boundary_iff_not_is_continuation_byte(head, at);
    }
}

/// Parses tokens into a syntax tree.
///
/// The parser goes through `tokens` once, with `current` as its cursor, and
/// takes the text of each literal from `source`.
#[derive(Debug, PartialEq)]
pub struct Parser<'source> {
    pub source: &'source str,
    pub current: usize,
    pub tokens: Vec<Token>,
}

impl<'source> Parser<'source> {
    /// Whether the cursor is within the tokens and each token within the
    /// source.
    pub open spec fn wf(self) -> bool {
        &&& self.current <= self.tokens@.len()
        &&& tokens_fit(self.source.spec_bytes(), self.tokens@)
    }

    pub fn new(source: &'source str, tokens: Vec<Token>) -> (parser: Self)
        ensures
            parser == (Parser { source, current: 0, tokens }),
    {
        Self { source, current: 0, tokens }
    }

    /// Parses the one value that the tokens hold from the cursor on to the
    /// token that ends the input.
    pub fn parse(&mut self) -> (result: Result<Node<'source>, ParserError>)
        requires
            old(self).wf(),
        ensures
            final(self).wf(),
            final(self).source == old(self).source,
            final(self).tokens == old(self).tokens,
            final(self).current == parse_end(
                old(self).source.spec_bytes(),
                old(self).tokens@,
                old(self).current as int,
            ),
            match result {
                Ok(node) => parse_result(
                    old(self).source.spec_bytes(),
                    old(self).tokens@,
                    old(self).current as int,
                ) == Ok::<Tree, Mismatch>(node@),
                Err(error) => parse_result(
                    old(self).source.spec_bytes(),
                    old(self).tokens@,
                    old(self).current as int,
                ) matches Err(mismatch) && explains(
                    old(self).source.spec_bytes(),
                    old(self).tokens@,
                    mismatch,
                    error,
                ) && final(self).current == cursor_at(
                    old(self).source.spec_bytes(),
                    old(self).tokens@,
                    mismatch,
                ),
            },
    {
        let ast = match self.parse_literal() {
            Ok(ast) => ast,
            Err(error) => return Err(error),
        };
        match self.next_or_error(TokenType::Eof, "Expected end of input") {
            Ok(_) => Ok(ast),
            Err(error) => Err(error),
        }
    }

    /// Whether the tokens from the cursor on are one value and the end of
    /// the input.
    pub fn is_valid(&mut self) -> (valid: bool)
        requires
            old(self).wf(),
        ensures
            final(self).wf(),
            final(self).source == old(self).source,
            final(self).tokens == old(self).tokens,
            final(self).current == parse_end(
                old(self).source.spec_bytes(),
                old(self).tokens@,
                old(self).current as int,
            ),
            valid == parse_result(
                old(self).source.spec_bytes(),
                old(self).tokens@,
                old(self).current as int,
            ) is Ok,
    {
        self.parse().is_ok()
    }

    /// Parses the object whose opening brace stands before the cursor.
    pub fn parse_object(&mut self) -> (result: Result<Node<'source>, ParserError>)
        requires
            old(self).wf(),
        ensures
            final(self).wf(),
            final(self).source == old(self).source,
            final(self).tokens == old(self).tokens,
            match result {
                Ok(node) => object_at(
                    old(self).source.spec_bytes(),
                    old(self).tokens@,
                    old(self).current as int,
                ) == Ok::<(Tree, int), Mismatch>((node@, final(self).current as int))
                    && old(self).current < final(self).current,
                Err(error) => object_at(
                    old(self).source.spec_bytes(),
                    old(self).tokens@,
                    old(self).current as int,
                ) matches Err(mismatch) && explains(
                    old(self).source.spec_bytes(),
                    old(self).tokens@,
                    mismatch,
                    error,
                ) && final(self).current == cursor_at(
                    old(self).source.spec_bytes(),
                    old(self).tokens@,
                    mismatch,
                ),
            },
        decreases old(self).tokens@.len() - old(self).current, 3int,
    {
        let ghost source = self.source.spec_bytes();
        let ghost tokens = self.tokens@;
        let ghost start = self.current as int;
        let mut property_map = PropertyMap::new();
        let first = match self.peek() {
            Some(token) => token.token_type != TokenType::RightBrace,
            None => false,
        };
        if first {
            assert(keys_of(trees(property_map.properties())) =~= property_map.keys());
            assert(trees(property_map.properties()) =~= Seq::<Tree>::empty());
            loop
                invariant_except_break
                    members_at(
                        source,
                        tokens,
                        self.current as int,
                        trees(property_map.properties()),
                    ) == members_at(source, tokens, start, Seq::empty()),
                invariant
                    self.wf(),
                    self.source.spec_bytes() == source,
                    self.source == old(self).source,
                    self.tokens == old(self).tokens,
                    self.tokens@ == tokens,
                    start == old(self).current,
                    start <= self.current,
                    start < tokens.len() && tokens[start].token_type != TokenType::RightBrace,
                    property_map.wf(),
                    property_map.keys() == keys_of(trees(property_map.properties())),
                ensures
                    start < self.current,
                    members_at(source, tokens, start, Seq::empty()) == Ok::<
                        (Seq<Tree>, int),
                        Mismatch,
                    >((trees(property_map.properties()), self.current as int)),
                decreases tokens.len() - self.current,
            {
                let ghost before = trees(property_map.properties());
                let (key, property, token) = match self.parse_property() {
                    Ok((key, property, token)) => (key, property, *token),
                    Err(error) => return Err(error),
                };
                let ghost tree = property@;
                match property_map.insert(key, property) {
                    None => {
                        return Err(
                            ParserError::DuplicateProperty {
                                property: key.to_owned(),
                                error_preview: self.error_preview(&token),
                            },
                        );
                    },
                    Some(_) => {},
                }
                proof {
                    assert(trees(property_map.properties()) =~= before.push(tree));
                    assert(keys_of(before.push(tree)) =~= keys_of(before).push(key@));
                }
                let more = match self.peek() {
                    Some(token) => token.token_type == TokenType::Comma,
                    None => false,
                };
                if more {
                    self.next();
                } else {
                    break ;
                }
            }
        }
        match self.next_or_error(TokenType::RightBrace, "Expected object to be terminated") {
            Ok(_) => {
                let children = property_map.into_properties();
                proof {
                    lemma_list_views(children);
                    if !first {
                        assert(trees(children@) =~= Seq::<Tree>::empty());
                    }
                }
                Ok(Node::Object(children))
            },
            Err(error) => Err(error),
        }
    }

    /// Parses the property that begins at the cursor, and gives its key as
    /// it is written, the property and the token of the key.
    pub fn parse_property(&mut self) -> (result: Result<
        (&'source str, Node<'source>, &Token),
        ParserError,
    >)
        requires
            old(self).wf(),
        ensures
            final(self).wf(),
            final(self).source == old(self).source,
            final(self).tokens == old(self).tokens,
            match result {
                Ok((key, node, token)) => property_at(
                    old(self).source.spec_bytes(),
                    old(self).tokens@,
                    old(self).current as int,
                ) == Ok::<(Tree, int), Mismatch>((node@, final(self).current as int))
                    && old(self).current < final(self).current && old(self).current < old(
                    self,
                ).tokens@.len() && *token == old(self).tokens@[old(self).current as int] && key@
                    == token_text(old(self).source.spec_bytes(), *token) && key_text(node@)
                    == key@,
                Err(error) => property_at(
                    old(self).source.spec_bytes(),
                    old(self).tokens@,
                    old(self).current as int,
                ) matches Err(mismatch) && explains(
                    old(self).source.spec_bytes(),
                    old(self).tokens@,
                    mismatch,
                    error,
                ) && final(self).current == cursor_at(
                    old(self).source.spec_bytes(),
                    old(self).tokens@,
                    mismatch,
                ),
            },
        decreases old(self).tokens@.len() - old(self).current, 1int,
    {
        let at = self.current;
        let token = match self.next_or_error(
            TokenType::String,
            "Object keys must be of type string",
        ) {
            Ok(token) => *token,
            Err(error) => return Err(error),
        };
        let text = self.text(&token);
        let key = Node::Literal(text);
        match self.next_or_error(
            TokenType::Colon,
            "Object key-values must be separated by a semicolon",
        ) {
            Ok(_) => {},
            Err(error) => return Err(error),
        }
        let value = match self.parse_literal() {
            Ok(value) => value,
            Err(error) => return Err(error),
        };
        let property = Node::Property(Box::new(key), Box::new(value));
        assert(property@ == Tree::Property(Box::new(key@), Box::new(value@)));
        assert(key@ == Tree::Literal(text@));
        Ok((text, property, &self.tokens[at]))
    }

    /// Parses the array whose opening bracket stands before the cursor.
    pub fn parse_array(&mut self) -> (result: Result<Node<'source>, ParserError>)
        requires
            old(self).wf(),
        ensures
            final(self).wf(),
            final(self).source == old(self).source,
            final(self).tokens == old(self).tokens,
            match result {
                Ok(node) => array_at(
                    old(self).source.spec_bytes(),
                    old(self).tokens@,
                    old(self).current as int,
                ) == Ok::<(Tree, int), Mismatch>((node@, final(self).current as int))
                    && old(self).current < final(self).current,
                Err(error) => array_at(
                    old(self).source.spec_bytes(),
                    old(self).tokens@,
                    old(self).current as int,
                ) matches Err(mismatch) && explains(
                    old(self).source.spec_bytes(),
                    old(self).tokens@,
                    mismatch,
                    error,
                ) && final(self).current == cursor_at(
                    old(self).source.spec_bytes(),
                    old(self).tokens@,
                    mismatch,
                ),
            },
        decreases old(self).tokens@.len() - old(self).current, 3int,
    {
        let ghost source = self.source.spec_bytes();
        let ghost tokens = self.tokens@;
        let ghost start = self.current as int;
        let mut values: Vec<Node<'source>> = Vec::new();
        let first = match self.peek() {
            Some(token) => token.token_type != TokenType::RightBracket,
            None => false,
        };
        if first {
            assert(trees(values@) =~= Seq::<Tree>::empty());
            loop
                invariant_except_break
                    elements_at(source, tokens, self.current as int, trees(values@))
                        == elements_at(source, tokens, start, Seq::empty()),
                invariant
                    self.wf(),
                    self.source.spec_bytes() == source,
                    self.source == old(self).source,
                    self.tokens == old(self).tokens,
                    self.tokens@ == tokens,
                    start == old(self).current,
                    start <= self.current,
                    start < tokens.len() && tokens[start].token_type != TokenType::RightBracket,
                ensures
                    start < self.current,
                    elements_at(source, tokens, start, Seq::empty()) == Ok::<
                        (Seq<Tree>, int),
                        Mismatch,
                    >((trees(values@), self.current as int)),
                decreases tokens.len() - self.current,
            {
                let ghost before = trees(values@);
                let value = match self.parse_literal() {
                    Ok(value) => value,
                    Err(error) => return Err(error),
                };
                let ghost tree = value@;
                values.push(value);
                proof {
                    assert(trees(values@) =~= before.push(tree));
                }
                let more = match self.peek() {
                    Some(token) => token.token_type == TokenType::Comma,
                    None => false,
                };
                if more {
                    self.next();
                } else {
                    break ;
                }
            }
        }
        match self.next_or_error(TokenType::RightBracket, "Expected array to be terminated") {
            Ok(_) => {
                proof {
                    lemma_list_views(values);
                    if !first {
                        assert(trees(values@) =~= Seq::<Tree>::empty());
                    }
                }
                Ok(Node::Array(values))
            },
            Err(error) => Err(error),
        }
    }

    /// Parses the value that begins at the cursor.
    pub fn parse_literal(&mut self) -> (result: Result<Node<'source>, ParserError>)
        requires
            old(self).wf(),
        ensures
            final(self).wf(),
            final(self).source == old(self).source,
            final(self).tokens == old(self).tokens,
            match result {
                Ok(node) => value_at(
                    old(self).source.spec_bytes(),
                    old(self).tokens@,
                    old(self).current as int,
                ) == Ok::<(Tree, int), Mismatch>((node@, final(self).current as int))
                    && old(self).current < final(self).current,
                Err(error) => value_at(
                    old(self).source.spec_bytes(),
                    old(self).tokens@,
                    old(self).current as int,
                ) matches Err(mismatch) && explains(
                    old(self).source.spec_bytes(),
                    old(self).tokens@,
                    mismatch,
                    error,
                ) && final(self).current == cursor_at(
                    old(self).source.spec_bytes(),
                    old(self).tokens@,
                    mismatch,
                ),
            },
        decreases old(self).tokens@.len() - old(self).current, 1int,
    {
        let token = match self.peek() {
            Some(token) => *token,
            None => {
                return Err(
                    ParserError::UnexpectedToken {
                        expected: String::new(),
                        found: String::new(),
                        error_preview: String::new(),
                    },
                );
            },
        };
        match token.token_type {
            TokenType::Null
            | TokenType::String
            | TokenType::Number
            | TokenType::True
            | TokenType::False => {
                let node = Node::Literal(self.text(&token));
                self.next();
                Ok(node)
            },
            TokenType::LeftBrace => {
                self.next();
                self.parse_object()
            },
            TokenType::LeftBracket => {
                self.next();
                self.parse_array()
            },
            _ => Err(
                ParserError::UnexpectedToken {
                    expected: String::from_str("Expected string|number|bool|object|array"),
                    found: token.token_type.to_string(),
                    error_preview: self.error_preview(&token),
                },
            ),
        }
    }

    /// Steps over the token at the cursor, which has to be of the given
    /// type, and gives it. Another token is an error that holds `error`,
    /// and the cursor stays.
    pub fn next_or_error(&mut self, expected_token_type: TokenType, error: &str) -> (result:
        Result<&Token, ParserError>)
        requires
            old(self).wf(),
        ensures
            final(self).wf(),
            final(self).source == old(self).source,
            final(self).tokens == old(self).tokens,
            match result {
                Ok(token) => expect(
                    old(self).tokens@,
                    old(self).current as int,
                    expected_token_type,
                    error@,
                ) == Ok::<int, Mismatch>(final(self).current as int) && final(self).current
                    == old(self).current + 1 && *token == old(self).tokens@[old(
                    self,
                ).current as int] && token.token_type == expected_token_type,
                Err(failure) => expect(
                    old(self).tokens@,
                    old(self).current as int,
                    expected_token_type,
                    error@,
                ) matches Err(mismatch) && explains(
                    old(self).source.spec_bytes(),
                    old(self).tokens@,
                    mismatch,
                    failure,
                ) && final(self).current == old(self).current,
            },
    {
        let token = match self.peek() {
            Some(token) => *token,
            None => {
                return Err(
                    ParserError::UnexpectedToken {
                        expected: String::new(),
                        found: String::new(),
                        error_preview: String::new(),
                    },
                );
            },
        };
        if expected_token_type == token.token_type && self.current < self.tokens.len() {
            self.current += 1;
            Ok(&self.tokens[self.current - 1])
        } else {
            Err(
                ParserError::UnexpectedToken {
                    expected: String::from_str(error),
                    found: token.token_type.to_string(),
                    error_preview: self.error_preview(&token),
                },
            )
        }
    }

    /// The preview of the source where `token` begins.
    pub fn error_preview(&self, token: &Token) -> (shown: String)
        requires
            token_fits(self.source.spec_bytes(), *token),
        ensures
            shown@ == token_preview(self.source.spec_bytes(), *token),
    {
        ErrorPreview.preview(
            self.source,
            token.indices.0,
            token.column_indices.0,
            token.line_number,
        )
    }

    /// The text of `token`: the source between its byte offsets.
    pub fn text(&self, token: &Token) -> (text: &'source str)
        requires
            token_fits(self.source.spec_bytes(), *token),
        ensures
            text@ == token_text(self.source.spec_bytes(), *token),
    {
        let (start, end) = token.indices;
        proof {
            broadcast use encode_utf8_valid_utf8, encode_utf8_decode_utf8;

            lemma_boundary_in_prefix(self.source.spec_bytes(), start as int, end as int);
        }
        let (head, _) = self.source.split_at(end);
        let (_, text) = head.split_at(start);
        assert(text.spec_bytes() =~= self.source.spec_bytes().subrange(start as int, end as int));
        text
    }

    /// The token at the cursor; the cursor moves on behind it.
    pub fn next(&mut self) -> (token: Option<&Token>)
        ensures
            final(self).source == old(self).source,
            final(self).tokens == old(self).tokens,
            old(self).current < old(self).tokens@.len() ==> token == Some(
                &old(self).tokens@[old(self).current as int],
            ) && final(self).current == old(self).current + 1,
            old(self).current >= old(self).tokens@.len() ==> token is None && final(self).current
                == old(self).current,
    {
        if self.current < self.tokens.len() {
            self.current += 1;
            Some(&self.tokens[self.current - 1])
        } else {
            None
        }
    }

    /// The token at the cursor.
    pub fn peek(&self) -> (token: Option<&Token>)
        ensures
            self.current < self.tokens@.len() ==> token == Some(&self.tokens@[self.current as int]),
            self.current >= self.tokens@.len() ==> token is None,
    {
        if self.current < self.tokens.len() {
            Some(&self.tokens[self.current])
        } else {
            None
        }
    }
}

} // verus!
