//! The syntax tree and what it stands for.

use vstd::prelude::*;

verus! {

/// A node of the syntax tree.
///
/// A `Literal` is a slice of the source, kept verbatim: a string with its
/// quotes, a number, `true`, `false` or `null`. A `Property` pairs a key
/// with a value. `Array` and `Object` own their children in source order.
#[derive(Debug, PartialEq)]
pub enum Node<'source> {
    Object(Vec<Node<'source>>),
    Property(Box<Node<'source>>, Box<Node<'source>>),
    Array(Vec<Node<'source>>),
    Literal(&'source str),
}

/// What a [`Node`] is, apart from where its text is stored: the same tree
/// with each literal as a sequence of characters.
pub enum Tree {
    Object(Seq<Tree>),
    Property(Box<Tree>, Box<Tree>),
    Array(Seq<Tree>),
    Literal(Seq<char>),
}

impl<'source> Node<'source> {
    /// The tree that this node stands for.
    pub open spec fn tree(self) -> Tree
        decreases self,
    {
        match self {
            Node::Object(children) => Tree::Object(
                Seq::new(
                    children.len() as nat,
                    |i: int|
                        if 0 <= i < children.len() {
                            children[i].tree()
                        } else {
                            Tree::Literal(Seq::empty())
                        },
                ),
            ),
            Node::Property(key, value) => Tree::Property(
                Box::new(key.tree()),
                Box::new(value.tree()),
            ),
            Node::Array(children) => Tree::Array(
                Seq::new(
                    children.len() as nat,
                    |i: int|
                        if 0 <= i < children.len() {
                            children[i].tree()
                        } else {
                            Tree::Literal(Seq::empty())
                        },
                ),
            ),
            Node::Literal(text) => Tree::Literal(text@),
        }
    }
}

impl<'source> View for Node<'source> {
    type V = Tree;

    open spec fn view(&self) -> Tree {
        self.tree()
    }
}

/// The views of a list of nodes, in order.
pub open spec fn trees(nodes: Seq<Node>) -> Seq<Tree> {
    Seq::new(nodes.len(), |i: int| nodes[i]@)
}

/// The list of the views of the children is the view of the list.
pub proof fn lemma_list_views(children: Vec<Node>)
    ensures
        Node::Array(children)@ == Tree::Array(trees(children@)),
        Node::Object(children)@ == Tree::Object(trees(children@)),
{
    assert(Node::Array(children).tree()->Array_0 =~= trees(children@));
    assert(Node::Object(children).tree()->Object_0 =~= trees(children@));
}

} // verus!
