use vstd::prelude::*;
use crate::symbol::Symbol;

verus! {

/// The shape of a parse tree over the places of a row of tokens: a leaf stands for the token
/// at its place; an inner node was built by a reduction while the token at its place was the
/// next to be read.
pub struct Shape {
    pub symbol: Symbol,
    pub place: int,
    pub leaf: bool,
    pub children: Seq<Shape>,
}

/// The places of the leaves of the shape, from left to right.
pub open spec fn leaf_places(s: Shape) -> Seq<int>
    decreases s,
{
    if s.leaf {
        seq![s.place]
    } else {
        leaf_places_of(s.children, s.children.len())
    }
}

/// The places of the leaves of the first `n` shapes of the row, from left to right.
pub open spec fn leaf_places_of(row: Seq<Shape>, n: nat) -> Seq<int>
    decreases row, n,
{
    if n == 0 || n > row.len() {
        Seq::<int>::empty()
    } else {
        leaf_places_of(row, (n - 1) as nat) + leaf_places(row[n - 1])
    }
}

/// A node of a parse tree: a symbol, a token and the subtrees in their order.
#[derive(Debug)]
pub struct ParseTree<T> {
    symbol: Symbol,
    token: T,
    children: Vec<ParseTree<T>>,
}

impl<T> ParseTree<T> {
    /// The symbol of the node.
    pub closed spec fn spec_symbol(&self) -> Symbol {
        self.symbol
    }

    /// The token of the node.
    pub closed spec fn spec_token(&self) -> T {
        self.token
    }

    /// The subtrees of the node, in their order.
    pub closed spec fn spec_children(&self) -> Seq<ParseTree<T>> {
        self.children@
    }

    /// A node without subtrees.
    pub fn new(symbol: Symbol, token: T) -> (t: ParseTree<T>)
        ensures
            t.spec_symbol() == symbol,
            t.spec_token() == token,
            t.spec_children() == Seq::<ParseTree<T>>::empty(),
    {
        ParseTree { symbol, token, children: Vec::new() }
    }

    /// The token of the node.
    pub fn token(&self) -> (t: &T)
        ensures
            *t == self.spec_token(),
    {
        &self.token
    }

    /// The symbol of the node.
    pub fn symbol(&self) -> (s: &Symbol)
        ensures
            *s == self.spec_symbol(),
    {
        &self.symbol
    }

    /// The subtrees of the node, in their order.
    pub fn children(&self) -> (v: &Vec<ParseTree<T>>)
        ensures
            v@ == self.spec_children(),
    {
        &self.children
    }

    /// Adds the trees of `children`, in their order, after the subtrees.
    pub fn add_children(&mut self, children: Vec<ParseTree<T>>)
        ensures
            final(self).spec_symbol() == old(self).spec_symbol(),
            final(self).spec_token() == old(self).spec_token(),
            final(self).spec_children() == old(self).spec_children() + children@,
    {
        let mut children = children;
        self.children.append(&mut children);
    }

    /// Adds `child` as the last subtree.
    pub fn add_child(&mut self, child: ParseTree<T>)
        ensures
            final(self).spec_symbol() == old(self).spec_symbol(),
            final(self).spec_token() == old(self).spec_token(),
            final(self).spec_children() == old(self).spec_children().push(child),
    {
        self.children.push(child);
    }
}

impl<T: Clone> ParseTree<T> {
    /// The tree has the shape `shape` over the tokens `tokens`: the symbols and the numbers
    /// of subtrees agree, each leaf carries the token at its place, and each inner node a
    /// clone of the token at its place.
    pub closed spec fn matches(&self, shape: Shape, tokens: Seq<T>) -> bool
        decreases self,
    {
        &&& self.symbol == shape.symbol
        &&& 0 <= shape.place < tokens.len()
        &&& if shape.leaf {
            self.token == tokens[shape.place]
        } else {
            cloned(tokens[shape.place], self.token)
        }
        &&& self.children@.len() == shape.children.len()
        &&& forall|i: int|
            0 <= i < self.children@.len() ==> (#[trigger] self.children@[i]).matches(
                shape.children[i],
                tokens,
            )
    }

    /// What it is to have a shape, said of the node and of its subtrees.
    pub proof fn lemma_matches(&self, shape: Shape, tokens: Seq<T>)
        ensures
            self.matches(shape, tokens) <==> {
                &&& self.spec_symbol() == shape.symbol
                &&& 0 <= shape.place < tokens.len()
                &&& if shape.leaf {
                    self.spec_token() == tokens[shape.place]
                } else {
                    cloned(tokens[shape.place], self.spec_token())
                }
                &&& self.spec_children().len() == shape.children.len()
                &&& forall|i: int|
                    0 <= i < self.spec_children().len() ==> (#[trigger] self.spec_children()[i]).matches(
                        shape.children[i],
                        tokens,
                    )
            },
    {
    }

    /// Two trees are alike: the symbols and the numbers of subtrees agree throughout, and
    /// where the shape has a leaf the tokens are the same.
    pub closed spec fn alike(&self, other: &ParseTree<T>, shape: Shape) -> bool
        decreases self,
    {
        &&& self.symbol == other.symbol
        &&& shape.leaf ==> self.token == other.token
        &&& self.children@.len() == other.children@.len()
        &&& self.children@.len() == shape.children.len()
        &&& forall|i: int|
            0 <= i < self.children@.len() ==> (#[trigger] self.children@[i]).alike(
                &other.children@[i],
                shape.children[i],
            )
    }

    /// What it is to be alike, said of the nodes and of their subtrees.
    pub proof fn lemma_alike(&self, other: &ParseTree<T>, shape: Shape)
        ensures
            self.alike(other, shape) <==> {
                &&& self.spec_symbol() == other.spec_symbol()
                &&& shape.leaf ==> self.spec_token() == other.spec_token()
                &&& self.spec_children().len() == other.spec_children().len()
                &&& self.spec_children().len() == shape.children.len()
                &&& forall|i: int|
                    0 <= i < self.spec_children().len() ==> (#[trigger] self.spec_children()[i]).alike(
                        &other.spec_children()[i],
                        shape.children[i],
                    )
            },
    {
    }

    /// Two trees of one shape over the same tokens are alike.
    pub proof fn lemma_same_shape_alike(&self, other: &ParseTree<T>, shape: Shape, tokens: Seq<T>)
        requires
            self.matches(shape, tokens),
            other.matches(shape, tokens),
        ensures
            self.alike(other, shape),
        decreases self,
    {
        assert forall|i: int| 0 <= i < self.children@.len() implies (#[trigger] self.children@[i]).alike(
            &other.children@[i],
            shape.children[i],
        ) by {
            assert(other.children@[i].matches(shape.children[i], tokens));
            self.children@[i].lemma_same_shape_alike(&other.children@[i], shape.children[i], tokens);
        }
    }

}

} // verus!
