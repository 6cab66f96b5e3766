//! A source in which an object has the same key twice is refused for that
//! key, at whatever depth the object stands.

use vstd::prelude::*;
use crate::node::Tree;
use crate::parser_error::ParserError;
use crate::parser::{
    array_at, elements_at, expect, expected_array_end, expected_colon, expected_end,
    expected_key, expected_object_end, expected_value, explains, key_text, keys_of, members_at,
    object_at, parse_result, property_at, token_text, value_at, Mismatch,
};
use crate::token::Token;
use crate::token_type::TokenType;

verus! {

/// The value that begins with the token at `at`, as [`value_at`] reads it,
/// but with no regard to the keys of its objects.
pub open spec fn loose_value_at(source: Seq<u8>, tokens: Seq<Token>, at: int) -> Result<
    (Tree, int),
    Mismatch,
>
    decreases tokens.len() - at, 1int,
{
    if 0 <= at < tokens.len() {
        let token = tokens[at];
        if token.token_type.is_scalar() {
            Ok((Tree::Literal(token_text(source, token)), at + 1))
        } else if token.token_type == TokenType::LeftBrace {
            loose_object_at(source, tokens, at + 1)
        } else if token.token_type == TokenType::LeftBracket {
            loose_array_at(source, tokens, at + 1)
        } else {
            Err(Mismatch::Unexpected { expected: expected_value(), at })
        }
    } else {
        Err(Mismatch::Unexpected { expected: Seq::empty(), at: tokens.len() as int })
    }
}

/// The array whose opening bracket stands before `at`, with no regard to
/// the keys of the objects in it.
pub open spec fn loose_array_at(source: Seq<u8>, tokens: Seq<Token>, at: int) -> Result<
    (Tree, int),
    Mismatch,
>
    decreases tokens.len() - at, 3int,
{
    if 0 <= at < tokens.len() && tokens[at].token_type != TokenType::RightBracket {
        match loose_elements_at(source, tokens, at, Seq::empty()) {
            Ok((elements, next)) => match expect(
                tokens,
                next,
                TokenType::RightBracket,
                expected_array_end(),
            ) {
                Ok(end) => Ok((Tree::Array(elements), end)),
                Err(mismatch) => Err(mismatch),
            },
            Err(mismatch) => Err(mismatch),
        }
    } else {
        match expect(tokens, at, TokenType::RightBracket, expected_array_end()) {
            Ok(end) => Ok((Tree::Array(Seq::empty()), end)),
            Err(mismatch) => Err(mismatch),
        }
    }
}

/// The values of an array from `at` on, behind those in `before`, with no
/// regard to the keys of the objects in them.
pub open spec fn loose_elements_at(
    source: Seq<u8>,
    tokens: Seq<Token>,
    at: int,
    before: Seq<Tree>,
) -> Result<(Seq<Tree>, int), Mismatch>
    decreases tokens.len() - at, 2int,
{
    if 0 <= at < tokens.len() {
        match loose_value_at(source, tokens, at) {
            Ok((element, next)) => {
                if at < next < tokens.len() && tokens[next].token_type == TokenType::Comma {
                    loose_elements_at(source, tokens, next + 1, before.push(element))
                } else {
                    Ok((before.push(element), next))
                }
            },
            Err(mismatch) => Err(mismatch),
        }
    } else {
        Err(Mismatch::Unexpected { expected: Seq::empty(), at: tokens.len() as int })
    }
}

/// The object whose opening brace stands before `at`, with no regard to
/// its keys nor to those of the objects in it.
pub open spec fn loose_object_at(source: Seq<u8>, tokens: Seq<Token>, at: int) -> Result<
    (Tree, int),
    Mismatch,
>
    decreases tokens.len() - at, 3int,
{
    if 0 <= at < tokens.len() && tokens[at].token_type != TokenType::RightBrace {
        match loose_members_at(source, tokens, at, Seq::empty()) {
            Ok((members, next)) => match expect(
                tokens,
                next,
                TokenType::RightBrace,
                expected_object_end(),
            ) {
                Ok(end) => Ok((Tree::Object(members), end)),
                Err(mismatch) => Err(mismatch),
            },
            Err(mismatch) => Err(mismatch),
        }
    } else {
        match expect(tokens, at, TokenType::RightBrace, expected_object_end()) {
            Ok(end) => Ok((Tree::Object(Seq::empty()), end)),
            Err(mismatch) => Err(mismatch),
        }
    }
}

/// The properties of an object from `at` on, behind those in `before`, with
/// no regard to their keys.
pub open spec fn loose_members_at(
    source: Seq<u8>,
    tokens: Seq<Token>,
    at: int,
    before: Seq<Tree>,
) -> Result<(Seq<Tree>, int), Mismatch>
    decreases tokens.len() - at, 2int,
{
    if 0 <= at < tokens.len() {
        match loose_property_at(source, tokens, at) {
            Ok((property, next)) => {
                if at < next < tokens.len() && tokens[next].token_type == TokenType::Comma {
                    loose_members_at(source, tokens, next + 1, before.push(property))
                } else {
                    Ok((before.push(property), next))
                }
            },
            Err(mismatch) => Err(mismatch),
        }
    } else {
        Err(Mismatch::Unexpected { expected: Seq::empty(), at: tokens.len() as int })
    }
}

/// The property that begins at `at`, with no regard to the keys of the
/// objects in its value.
pub open spec fn loose_property_at(source: Seq<u8>, tokens: Seq<Token>, at: int) -> Result<
    (Tree, int),
    Mismatch,
>
    decreases tokens.len() - at, 1int,
{
    match expect(tokens, at, TokenType::String, expected_key()) {
        Ok(colon) => match expect(tokens, colon, TokenType::Colon, expected_colon()) {
            Ok(value) => match loose_value_at(source, tokens, value) {
                Ok((tree, next)) => Ok(
                    (
                        Tree::Property(
                            Box::new(Tree::Literal(token_text(source, tokens[at]))),
                            Box::new(tree),
                        ),
                        next,
                    ),
                ),
                Err(mismatch) => Err(mismatch),
            },
            Err(mismatch) => Err(mismatch),
        },
        Err(mismatch) => Err(mismatch),
    }
}

/// The one value that the tokens hold from `at` on to the token that ends
/// the input, with no regard to the keys of its objects: what the tokens
/// are by the grammar alone.
pub open spec fn loose_parse_result(source: Seq<u8>, tokens: Seq<Token>, at: int) -> Result<
    Tree,
    Mismatch,
> {
    match loose_value_at(source, tokens, at) {
        Ok((tree, next)) => match expect(tokens, next, TokenType::Eof, expected_end()) {
            Ok(_) => Ok(tree),
            Err(mismatch) => Err(mismatch),
        },
        Err(mismatch) => Err(mismatch),
    }
}

/// Whether some object of the tree, at whatever depth, has two properties
/// with the same key.
pub open spec fn has_repeated_key(tree: Tree) -> bool
    decreases tree,
{
    match tree {
        Tree::Object(children) => !keys_of(children).no_duplicates() || exists|i: int|
            0 <= i < children.len() && has_repeated_key(#[trigger] children[i]),
        Tree::Property(_, value) => has_repeated_key(*value),
        Tree::Array(children) => exists|i: int|
            0 <= i < children.len() && has_repeated_key(#[trigger] children[i]),
        Tree::Literal(_) => false,
    }
}

/// Whether one of the trees from the given number on has a repeated key.
pub open spec fn any_repeated_key(trees: Seq<Tree>, from: int) -> bool {
    exists|i: int| from <= i < trees.len() && has_repeated_key(#[trigger] trees[i])
}

/// Whether the parser has refused what it read for a key that came again.
pub open spec fn is_refused_for_key<T>(result: Result<T, Mismatch>) -> bool {
    result matches Err(Mismatch::Duplicate { .. })
}

/// What the parser makes of what the grammar alone accepts as `tree`: it
/// refuses it for a key if the tree has a repeated key, and else accepts
/// it as the same tree.
pub open spec fn decided_by_keys(
    result: Result<(Tree, int), Mismatch>,
    tree: Tree,
    next: int,
) -> bool {
    if has_repeated_key(tree) {
        is_refused_for_key(result)
    } else {
        result == Ok::<(Tree, int), Mismatch>((tree, next))
    }
}

/// An array has a repeated key where one of its children has one, and an
/// object where one of its children has one or two of them have the same
/// key.
pub proof fn lemma_list_has_repeated_key(children: Seq<Tree>)
    ensures
        has_repeated_key(Tree::Array(children)) == any_repeated_key(children, 0),
        has_repeated_key(Tree::Object(children)) == (any_repeated_key(children, 0) || !keys_of(
            children,
        ).no_duplicates()),
{
    reveal_with_fuel(has_repeated_key, 2);
    if any_repeated_key(children, 0) {
        let i = choose|i: int| 0 <= i < children.len() && has_repeated_key(#[trigger] children[i]);
        assert(0 <= i < children.len() && has_repeated_key(children[i]));
        assert(Tree::Array(children)->Array_0[i] == children[i]);
        assert(Tree::Object(children)->Object_0[i] == children[i]);
        assert(has_repeated_key(Tree::Array(children)));
        assert(has_repeated_key(Tree::Object(children)));
    }
    if has_repeated_key(Tree::Array(children)) {
        let i = choose|i: int| 0 <= i < children.len() && has_repeated_key(#[trigger] children[i]);
        assert(has_repeated_key(children[i]));
        assert(any_repeated_key(children, 0));
    }
    if has_repeated_key(Tree::Object(children)) && keys_of(children).no_duplicates() {
        let i = choose|i: int| 0 <= i < children.len() && has_repeated_key(#[trigger] children[i]);
        assert(has_repeated_key(children[i]));
        assert(any_repeated_key(children, 0));
    }
}

/// A value and a property that the grammar accepts are refused for a key
/// if they have a repeated key, and are else accepted as they are.
pub proof fn lemma_value_by_keys(source: Seq<u8>, tokens: Seq<Token>, at: int)
    ensures
        loose_value_at(source, tokens, at) matches Ok((tree, next)) ==> decided_by_keys(
            value_at(source, tokens, at),
            tree,
            next,
        ),
        loose_property_at(source, tokens, at) matches Ok((tree, next)) ==> decided_by_keys(
            property_at(source, tokens, at),
            tree,
            next,
        ),
    decreases tokens.len() - at, 0int,
{
    if 0 <= at < tokens.len() {
        if tokens[at].token_type == TokenType::LeftBrace || tokens[at].token_type
            == TokenType::LeftBracket {
            lemma_brackets_by_keys(source, tokens, at + 1);
        }
        if at + 2 < tokens.len() {
            lemma_value_by_keys(source, tokens, at + 2);
        }
    }
}

/// An array and an object that the grammar accepts are refused for a key
/// if they have a repeated key, and are else accepted as they are.
pub proof fn lemma_brackets_by_keys(source: Seq<u8>, tokens: Seq<Token>, at: int)
    ensures
        loose_array_at(source, tokens, at) matches Ok((tree, next)) ==> decided_by_keys(
            array_at(source, tokens, at),
            tree,
            next,
        ),
        loose_object_at(source, tokens, at) matches Ok((tree, next)) ==> decided_by_keys(
            object_at(source, tokens, at),
            tree,
            next,
        ),
    decreases tokens.len() - at, 2int,
{
    let empty = Seq::<Tree>::empty();
    assert(keys_of(empty) =~= Seq::<Seq<char>>::empty());
    if 0 <= at < tokens.len() {
        lemma_elements_by_keys(source, tokens, at, empty);
        lemma_members_by_keys(source, tokens, at, empty);
        if let Ok((elements, next)) = loose_elements_at(source, tokens, at, empty) {
            lemma_list_has_repeated_key(elements);
        }
        if let Ok((members, next)) = loose_members_at(source, tokens, at, empty) {
            lemma_list_has_repeated_key(members);
        }
    }
    assert(!has_repeated_key(Tree::Array(empty)));
    assert(!has_repeated_key(Tree::Object(empty)));
}

/// The values of a list that the grammar accepts come behind those that
/// were there; they are refused for a key if one of them has a repeated
/// key, and are else accepted as they are.
pub proof fn lemma_elements_by_keys(
    source: Seq<u8>,
    tokens: Seq<Token>,
    at: int,
    before: Seq<Tree>,
)
    ensures
        loose_elements_at(source, tokens, at, before) matches Ok((all, next)) ==> {
            &&& all.len() > before.len()
            &&& all.take(before.len() as int) == before
            &&& if any_repeated_key(all, before.len() as int) {
                is_refused_for_key(elements_at(source, tokens, at, before))
            } else {
                elements_at(source, tokens, at, before) == Ok::<(Seq<Tree>, int), Mismatch>(
                    (all, next),
                )
            }
        },
    decreases tokens.len() - at, 1int,
{
    if let Ok((all, end)) = loose_elements_at(source, tokens, at, before) {
        let (element, next) = loose_value_at(source, tokens, at)->Ok_0;
        let grown = before.push(element);
        let first = before.len() as int;
        lemma_value_by_keys(source, tokens, at);
        assert(grown.take(first) =~= before);
        if at < next < tokens.len() && tokens[next].token_type == TokenType::Comma {
            lemma_elements_by_keys(source, tokens, next + 1, grown);
            assert(all.take(first) =~= all.take(first + 1).take(first));
            assert(all[first] == all.take(first + 1)[first]);
        }
        assert(all[first] == element);
        if has_repeated_key(element) {
            assert(any_repeated_key(all, first));
        } else if any_repeated_key(all, first) {
            let i = choose|i: int| first <= i < all.len() && has_repeated_key(#[trigger] all[i]);
            assert(i > first);
            assert(any_repeated_key(all, first + 1));
        } else {
            assert(!any_repeated_key(all, first + 1)) by {
                if any_repeated_key(all, first + 1) {
                    let i = choose|i: int|
                        first + 1 <= i < all.len() && has_repeated_key(#[trigger] all[i]);
                    assert(first <= i);
                }
            }
        }
    }
}

/// The properties of a list that the grammar accepts come behind those that
/// were there; they are refused for a key if one of them has a repeated
/// key or two of them have the same key, and are else accepted as they are.
pub proof fn lemma_members_by_keys(
    source: Seq<u8>,
    tokens: Seq<Token>,
    at: int,
    before: Seq<Tree>,
)
    requires
        keys_of(before).no_duplicates(),
    ensures
        loose_members_at(source, tokens, at, before) matches Ok((all, next)) ==> {
            &&& all.len() > before.len()
            &&& all.take(before.len() as int) == before
            &&& if any_repeated_key(all, before.len() as int) || !keys_of(all).no_duplicates() {
                is_refused_for_key(members_at(source, tokens, at, before))
            } else {
                members_at(source, tokens, at, before) == Ok::<(Seq<Tree>, int), Mismatch>(
                    (all, next),
                )
            }
        },
    decreases tokens.len() - at, 1int,
{
    if let Ok((all, end)) = loose_members_at(source, tokens, at, before) {
        let (property, next) = loose_property_at(source, tokens, at)->Ok_0;
        let grown = before.push(property);
        let first = before.len() as int;
        let more = at < next < tokens.len() && tokens[next].token_type == TokenType::Comma;
        lemma_value_by_keys(source, tokens, at);
        assert(grown.take(first) =~= before);
        assert(keys_of(grown) =~= keys_of(before).push(key_text(property)));
        lemma_loose_members_prefix(source, tokens, at, before);
        assert(all.take(first + 1)[first] == all[first]);
        assert(all[first] == property);
        if has_repeated_key(property) {
            assert(any_repeated_key(all, first));
        } else if keys_of(before).contains(key_text(property)) {
            let i = choose|i: int|
                0 <= i < keys_of(before).len() && keys_of(before)[i] == key_text(property);
            assert(all.take(first)[i] == all[i]);
            assert(keys_of(all)[i] == keys_of(all)[first]);
        } else {
            assert(keys_of(grown).no_duplicates()) by {
                assert forall|i: int, j: int|
                    0 <= i < keys_of(grown).len() && 0 <= j < keys_of(grown).len() && i
                        != j implies keys_of(grown)[i] != keys_of(grown)[j] by {
                    if i < first && j < first {
                        assert(keys_of(before)[i] != keys_of(before)[j]);
                    } else if i < first {
                        assert(keys_of(before)[i] != key_text(property));
                    } else {
                        assert(keys_of(before)[j] != key_text(property));
                    }
                }
            }
            if more {
                lemma_members_by_keys(source, tokens, next + 1, grown);
            } else {
                assert(all =~= grown);
            }
            if any_repeated_key(all, first) {
                let i = choose|i: int|
                    first <= i < all.len() && has_repeated_key(#[trigger] all[i]);
                assert(i > first);
                assert(any_repeated_key(all, first + 1));
            } else {
                assert(!any_repeated_key(all, first + 1)) by {
                    if any_repeated_key(all, first + 1) {
                        let i = choose|i: int|
                            first + 1 <= i < all.len() && has_repeated_key(#[trigger] all[i]);
                        assert(first <= i);
                    }
                }
            }
        }
    }
}

/// The properties that the grammar accepts come behind those that were
/// there.
proof fn lemma_loose_members_prefix(
    source: Seq<u8>,
    tokens: Seq<Token>,
    at: int,
    before: Seq<Tree>,
)
    requires
        loose_members_at(source, tokens, at, before) is Ok,
    ensures
        loose_members_at(source, tokens, at, before)->Ok_0.0.len() > before.len(),
        loose_members_at(source, tokens, at, before)->Ok_0.0.take(before.len() as int + 1)
            == before.push(loose_property_at(source, tokens, at)->Ok_0.0),
        loose_members_at(source, tokens, at, before)->Ok_0.0.take(before.len() as int)
            == before,
    decreases tokens.len() - at,
{
    let all = loose_members_at(source, tokens, at, before)->Ok_0.0;
    let (property, next) = loose_property_at(source, tokens, at)->Ok_0;
    let grown = before.push(property);
    let first = before.len() as int;
    assert(grown.take(first) =~= before);
    if at < next < tokens.len() && tokens[next].token_type == TokenType::Comma {
        lemma_loose_members_prefix(source, tokens, next + 1, grown);
        assert(all.take(first + 1) =~= all.take(first + 2).take(first + 1));
        assert(all.take(first + 1) == grown);
    } else {
        assert(all.take(first + 1) =~= grown);
    }
    assert(all.take(first) =~= all.take(first + 1).take(first));
}

/// A source that is a JSON value by the grammar alone is refused for a key
/// if one of its objects, at whatever depth, has two properties with the
/// same key, wherever in the object the two stand; and it is else parsed as
/// the value it is by the grammar.
pub proof fn repeated_key_is_refused(source: Seq<u8>, tokens: Seq<Token>, at: int)
    requires
        loose_parse_result(source, tokens, at) is Ok,
    ensures
        has_repeated_key(loose_parse_result(source, tokens, at)->Ok_0) ==> is_refused_for_key(
            parse_result(source, tokens, at),
        ),
        !has_repeated_key(loose_parse_result(source, tokens, at)->Ok_0) ==> parse_result(
            source,
            tokens,
            at,
        ) == loose_parse_result(source, tokens, at),
{
    lemma_value_by_keys(source, tokens, at);
}

/// The error with which the parser refuses such a source is that of the
/// duplicate property.
pub proof fn repeated_key_is_a_duplicate_property(
    source: Seq<u8>,
    tokens: Seq<Token>,
    at: int,
    error: ParserError,
)
    requires
        loose_parse_result(source, tokens, at) is Ok,
        has_repeated_key(loose_parse_result(source, tokens, at)->Ok_0),
        parse_result(source, tokens, at) matches Err(mismatch) && explains(
            source,
            tokens,
            mismatch,
            error,
        ),
    ensures
        error is DuplicateProperty,
{
    repeated_key_is_refused(source, tokens, at);
}

} // verus!
