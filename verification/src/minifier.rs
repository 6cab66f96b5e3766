//! The minifier: from a syntax tree to JSON text without white space.

use vstd::prelude::*;
use crate::node::{lemma_list_views, trees, Node, Tree};

verus! {

/// The first `upto` of `parts`, one after another: each behind `before`,
/// followed by a comma unless it is the last of all the parts, and then by
/// `after`.
pub open spec fn listed(
    parts: Seq<Seq<char>>,
    before: Seq<char>,
    after: Seq<char>,
    upto: int,
) -> Seq<char>
    decreases upto,
{
    if upto <= 0 {
        Seq::empty()
    } else {
        listed(parts, before, after, upto - 1) + before + parts[upto - 1] + (if upto
            < parts.len() {
            seq![',']
        } else {
            Seq::empty()
        }) + after
    }
}

/// The tree as JSON text without any white space.
pub open spec fn minify_text(tree: Tree) -> Seq<char>
    decreases tree, 0int,
{
    match tree {
        Tree::Object(children) => seq!['{'] + listed(
            minified(children),
            Seq::empty(),
            Seq::empty(),
            children.len() as int,
        ) + seq!['}'],
        Tree::Property(key, value) => minify_text(*key) + seq![':'] + minify_text(*value),
        Tree::Array(children) => seq!['['] + listed(
            minified(children),
            Seq::empty(),
            Seq::empty(),
            children.len() as int,
        ) + seq![']'],
        Tree::Literal(text) => text,
    }
}

/// The text of each of the trees.
pub open spec fn minified(trees: Seq<Tree>) -> Seq<Seq<char>>
    decreases trees, 1int,
{
    Seq::new(
        trees.len(),
        |i: int|
            if 0 <= i < trees.len() {
                minify_text(trees[i])
            } else {
                Seq::empty()
            },
    )
}

/// Renders a syntax tree as JSON text without any white space.
pub struct Minifier;

impl Minifier {
    pub fn minify(&self, ast: &Node) -> (text: String)
        ensures
            text@ == minify_text(ast@),
    {
        self.depth_traversal(ast)
    }

    fn depth_traversal(&self, ast: &Node) -> (text: String)
        ensures
            text@ == minify_text(ast@),
        decreases ast,
    {
        proof {
            reveal_strlit("{");
            reveal_strlit("}");
            reveal_strlit("[");
            reveal_strlit("]");
            reveal_strlit(":");
        }
        match ast {
            Node::Object(children) => {
                proof {
                    lemma_list_views(*children);
                }
                let mut text = String::from_str("{");
                self.children(children, &mut text);
                text.append("}");
                text
            },
            Node::Property(key, value) => {
                let mut text = self.depth_traversal(key);
                text.append(":");
                text.append(self.depth_traversal(value).as_str());
                text
            },
            Node::Array(children) => {
                proof {
                    lemma_list_views(*children);
                }
                let mut text = String::from_str("[");
                self.children(children, &mut text);
                text.append("]");
                text
            },
            Node::Literal(literal) => String::from_str(literal),
        }
    }

    /// Appends the children to `text`, with commas between them.
    fn children(&self, children: &Vec<Node>, text: &mut String)
        ensures
            final(text)@ == old(text)@ + listed(
                minified(trees(children@)),
                Seq::empty(),
                Seq::empty(),
                children@.len() as int,
            ),
        decreases children,
    {
        let ghost parts = minified(trees(children@));
        let ghost head = text@;
        let mut i: usize = 0;
        proof {
            reveal_strlit(",");
        }
        while i < children.len()
            invariant
                i <= children.len(),
                parts == minified(trees(children@)),
                text@ == head + listed(parts, Seq::empty(), Seq::empty(), i as int),
                ","@ == seq![','],
            decreases children.len() - i,
        {
            let child = self.depth_traversal(&children[i]);
            text.append(child.as_str());
            if i < children.len() - 1 {
                text.append(",");
            }
            i += 1;
            assert(text@ =~= head + listed(parts, Seq::empty(), Seq::empty(), i as int));
        }
    }
}

} // verus!
