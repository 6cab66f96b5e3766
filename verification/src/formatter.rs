//! The formatter: from a syntax tree to indented JSON text.

use vstd::prelude::*;
use crate::minifier::listed;
use crate::node::{lemma_list_views, trees, Node, Tree};
use crate::text::{spaces, spaces_text};

verus! {

/// The tree as indented JSON text, when it stands `depth` levels deep and
/// each level is indented by `space` spaces.
///
/// An object or an array without children is a pair of brackets. With
/// children, each child stands on a line of its own, one level deeper, with
/// a comma behind each but the last, and the closing bracket stands on its
/// own line at the level of the opening one. A property is its key, a
/// colon, a space and its value.
pub open spec fn format_text(tree: Tree, space: nat, depth: nat) -> Seq<char>
    decreases tree, 0int,
{
    match tree {
        Tree::Object(children) => if children.len() == 0 {
            seq!['{', '}']
        } else {
            seq!['{', '\n'] + listed(
                formatted(children, space, depth + 1),
                spaces_text((depth + 1) * space),
                seq!['\n'],
                children.len() as int,
            ) + spaces_text(depth * space) + seq!['}']
        },
        Tree::Property(key, value) => format_text(*key, space, depth) + seq![':', ' ']
            + format_text(*value, space, depth),
        Tree::Array(children) => if children.len() == 0 {
            seq!['[', ']']
        } else {
            seq!['[', '\n'] + listed(
                formatted(children, space, depth + 1),
                spaces_text((depth + 1) * space),
                seq!['\n'],
                children.len() as int,
            ) + spaces_text(depth * space) + seq![']']
        },
        Tree::Literal(text) => text,
    }
}

/// The text of each of the trees at the given depth.
pub open spec fn formatted(trees: Seq<Tree>, space: nat, depth: nat) -> Seq<Seq<char>>
    decreases trees, 1int,
{
    Seq::new(
        trees.len(),
        |i: int|
            if 0 <= i < trees.len() {
                format_text(trees[i], space, depth)
            } else {
                Seq::empty()
            },
    )
}

/// Renders a syntax tree as indented JSON text.
#[derive(Debug, PartialEq)]
pub struct Formatter {
    pub space: usize,
}

impl Default for Formatter {
    fn default() -> (formatter: Self)
        ensures
            formatter.space == 4,
    {
        Self { space: 4 }
    }
}

impl Formatter {
    pub fn new(space: usize) -> (formatter: Self)
        ensures
            formatter.space == space,
    {
        Self { space }
    }

    /// The tree as JSON text, each level indented by `space` spaces.
    pub fn format(&self, ast: Node) -> (text: String)
        ensures
            text@ == format_text(ast@, self.space as nat, 0),
    {
        let unit = spaces(self.space);
        let spacing = String::new();
        assert(spacing@ =~= spaces_text(0));
        assert(0 * (self.space as nat) == 0) by (nonlinear_arith);
        self.depth_traversal(&ast, unit.as_str(), spacing.as_str(), Ghost(0))
    }

    /// The text of `ast` at the depth `depth`, for which `spacing` is the
    /// indentation and `unit` that of one level.
    fn depth_traversal(&self, ast: &Node, unit: &str, spacing: &str, Ghost(depth): Ghost<nat>) -> (text:
        String)
        requires
            unit@ == spaces_text(self.space as nat),
            spacing@ == spaces_text(depth * self.space as nat),
        ensures
            text@ == format_text(ast@, self.space as nat, depth),
        decreases ast,
    {
        proof {
            reveal_strlit("{}");
            reveal_strlit("{\n");
            reveal_strlit("}");
            reveal_strlit("[]");
            reveal_strlit("[\n");
            reveal_strlit("]");
            reveal_strlit(": ");
        }
        match ast {
            Node::Object(children) => {
                proof {
                    lemma_list_views(*children);
                }
                if children.len() == 0 {
                    assert("{}"@ =~= seq!['{', '}']);
                    return String::from_str("{}");
                }
                let mut text = String::from_str("{\n");
                self.children(children, unit, spacing, Ghost(depth), &mut text);
                text.append(spacing);
                text.append("}");
                assert("{\n"@ =~= seq!['{', '\n']);
                text
            },
            Node::Property(key, value) => {
                let mut text = self.depth_traversal(key, unit, spacing, Ghost(depth));
                text.append(": ");
                text.append(self.depth_traversal(value, unit, spacing, Ghost(depth)).as_str());
                assert(": "@ =~= seq![':', ' ']);
                text
            },
            Node::Array(children) => {
                proof {
                    lemma_list_views(*children);
                }
                if children.len() == 0 {
                    assert("[]"@ =~= seq!['[', ']']);
                    return String::from_str("[]");
                }
                let mut text = String::from_str("[\n");
                self.children(children, unit, spacing, Ghost(depth), &mut text);
                text.append(spacing);
                text.append("]");
                assert("[\n"@ =~= seq!['[', '\n']);
                text
            },
            Node::Literal(literal) => String::from_str(literal),
        }
    }

    /// Appends the children to `text`, each on a line of its own and one
    /// level deeper than `depth`.
    fn children(
        &self,
        children: &Vec<Node>,
        unit: &str,
        spacing: &str,
        Ghost(depth): Ghost<nat>,
        text: &mut String,
    )
        requires
            unit@ == spaces_text(self.space as nat),
            spacing@ == spaces_text(depth * self.space as nat),
        ensures
            final(text)@ == old(text)@ + listed(
                formatted(trees(children@), self.space as nat, depth + 1),
                spaces_text((depth + 1) * self.space as nat),
                seq!['\n'],
                children@.len() as int,
            ),
        decreases children,
    {
        let mut children_spacing = String::from_str(spacing);
        children_spacing.append(unit);
        proof {
            assert((depth + 1) * (self.space as nat) == depth * (self.space as nat)
                + self.space as nat) by (nonlinear_arith);
            assert(children_spacing@ =~= spaces_text((depth + 1) * self.space as nat));
            reveal_strlit(",");
            reveal_strlit("\n");
        }
        let ghost parts = formatted(trees(children@), self.space as nat, depth + 1);
        let ghost head = text@;
        let mut i: usize = 0;
        while i < children.len()
            invariant
                i <= children.len(),
                unit@ == spaces_text(self.space as nat),
                children_spacing@ == spaces_text((depth + 1) * self.space as nat),
                parts == formatted(trees(children@), self.space as nat, depth + 1),
                text@ == head + listed(parts, children_spacing@, seq!['\n'], i as int),
                ","@ == seq![','],
                "\n"@ == seq!['\n'],
            decreases children.len() - i,
        {
            text.append(children_spacing.as_str());
            let child = self.depth_traversal(
                &children[i],
                unit,
                children_spacing.as_str(),
                Ghost(depth + 1),
            );
            text.append(child.as_str());
            if i < children.len() - 1 {
                text.append(",");
            }
            text.append("\n");
            i += 1;
            assert(text@ =~= head + listed(parts, children_spacing@, seq!['\n'], i as int));
        }
    }
}

} // verus!
