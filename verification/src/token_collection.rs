//! A fixed collection of token codes and a walk through it.

use vstd::prelude::*;

verus! {

/// A fixed collection of token codes.
pub struct TokenCollection {
    tokens: Vec<i32>,
}

impl TokenCollection {
    /// The codes of the collection, in their order.
    pub closed spec fn codes(self) -> Seq<i32> {
        self.tokens@
    }

    pub fn new() -> (collection: Self)
        ensures
            collection.codes() == seq![234i32, 78i32, 235i32],
    {
        let mut tokens: Vec<i32> = Vec::new();
        tokens.push(234);
        tokens.push(78);
        tokens.push(235);
        assert(tokens@ =~= seq![234i32, 78i32, 235i32]);
        Self { tokens }
    }

    /// A walk through the collection that begins at its first code.
    pub fn iter(&self) -> (walk: TokenIterator<'_>)
        ensures
            walk.index() == 0,
            walk.codes() == self.codes(),
    {
        TokenIterator { index: 0, token_collection: self }
    }
}

/// A place in a walk through a [`TokenCollection`].
pub struct TokenIterator<'a> {
    index: usize,
    token_collection: &'a TokenCollection,
}

impl<'a> TokenIterator<'a> {
    /// How many codes the walk has passed.
    pub closed spec fn index(self) -> int {
        self.index as int
    }

    /// The codes of the collection that is walked through.
    pub closed spec fn codes(self) -> Seq<i32> {
        self.token_collection.tokens@
    }

    /// The code at which the walk stands, if it has not passed them all.
    pub fn peek(&self) -> (code: Option<i32>)
        ensures
            code == if 0 <= self.index() < self.codes().len() {
                Some(self.codes()[self.index()])
            } else {
                None
            },
    {
        if self.index < self.token_collection.tokens.len() {
            Some(self.token_collection.tokens[self.index])
        } else {
            None
        }
    }

    /// The code at which the walk stands; the walk moves on behind it.
    /// When it has passed them all, it stays.
    pub fn next(&mut self) -> (code: Option<i32>)
        ensures
            final(self).codes() == old(self).codes(),
            code == if 0 <= old(self).index() < old(self).codes().len() {
                Some(old(self).codes()[old(self).index()])
            } else {
                None
            },
            final(self).index() == if code is Some {
                old(self).index() + 1
            } else {
                old(self).index()
            },
    {
        if self.index < self.token_collection.tokens.len() {
            let token = self.token_collection.tokens[self.index];
            self.index += 1;
            return Some(token);
        }
        None
    }
}

} // verus!
