use vstd::prelude::*;

use crate::grammar::GrammarModel;

verus! {

/// A derivation tree: an internal node for every non-terminal
/// expansion and a leaf for every consumed terminal.
pub enum LlkTree {
    Node(LlkTreeNode),
    Leaf(char),
}

/// An internal node: its non-terminal, the production the parser
/// committed to (absent until chosen), and the ordered children.
pub struct LlkTreeNode {
    pub symbol: char,
    pub production_id: Option<usize>,
    pub children: Vec<LlkTree>,
}

/// The symbol at the root of a tree.
pub open spec fn tree_sym(t: LlkTree) -> char {
    match t {
        LlkTree::Node(n) => n.symbol,
        LlkTree::Leaf(c) => c,
    }
}

/// The terminal leaves of a tree, left to right.
pub open spec fn tree_leaves(t: LlkTree) -> Seq<char>
    decreases t,
{
    match t {
        LlkTree::Leaf(c) => seq![c],
        LlkTree::Node(n) => leaves_of(n.children@),
    }
}

/// The concatenated leaves of a forest, left to right.
pub open spec fn leaves_of(ts: Seq<LlkTree>) -> Seq<char>
    decreases ts,
{
    if ts.len() == 0 {
        Seq::empty()
    } else {
        tree_leaves(ts[0]) + leaves_of(ts.drop_first())
    }
}

/// The left-root-then-children traversal of a tree: each node yields
/// its symbol and production id before its children, a leaf yields
/// its symbol without one.
pub open spec fn tree_preorder(t: LlkTree) -> Seq<(char, Option<usize>)>
    decreases t,
{
    match t {
        LlkTree::Leaf(c) => seq![(c, None::<usize>)],
        LlkTree::Node(n) => seq![(n.symbol, n.production_id)] + preorder_of(n.children@),
    }
}

/// The concatenated traversals of a forest.
pub open spec fn preorder_of(ts: Seq<LlkTree>) -> Seq<(char, Option<usize>)>
    decreases ts,
{
    if ts.len() == 0 {
        Seq::empty()
    } else {
        tree_preorder(ts[0]) + preorder_of(ts.drop_first())
    }
}

/// Well-formedness of a tree against a grammar: every leaf is a
/// terminal; every node carries a production id naming a production
/// whose left-hand side is the node's symbol and whose derivation
/// matches the children — same symbols in the same order, an internal
/// node exactly where the derivation has a non-terminal.
pub open spec fn tree_wf(t: LlkTree, g: GrammarModel) -> bool
    decreases t,
{
    match t {
        LlkTree::Leaf(c) => g.terms.contains(c),
        LlkTree::Node(n) => match n.production_id {
            None => false,
            Some(id) => {
                &&& 0 <= id < g.num()
                &&& g.lhs(id as int) == n.symbol
                &&& n.children@.len() == g.rhs(id as int).len()
                &&& forall|j: int|
                    0 <= j < n.children@.len() ==> tree_sym(#[trigger] n.children@[j]) == g.rhs(
                        id as int,
                    )[j]
                &&& forall|j: int|
                    0 <= j < n.children@.len() ==> ((#[trigger] n.children@[j]) is Node
                        <==> g.is_nterm(g.rhs(id as int)[j]))
                &&& forall|j: int|
                    0 <= j < n.children@.len() ==> tree_wf(#[trigger] n.children@[j], g)
            },
        },
    }
}

/// Appending a tree to a forest appends its leaves.
pub proof fn lemma_leaves_push(ts: Seq<LlkTree>, t: LlkTree)
    ensures
        leaves_of(ts.push(t)) == leaves_of(ts) + tree_leaves(t),
    decreases ts,
{
    if ts.len() == 0 {
        reveal_with_fuel(leaves_of, 3);
        assert(ts.push(t)[0] == t);
        assert(ts.push(t).drop_first() =~= Seq::<LlkTree>::empty());
        assert(leaves_of(ts.push(t)) =~= leaves_of(ts) + tree_leaves(t));
    } else {
        assert(ts.push(t).drop_first() =~= ts.drop_first().push(t));
        lemma_leaves_push(ts.drop_first(), t);
        assert(ts.push(t)[0] == ts[0]);
        assert(leaves_of(ts.push(t)) == tree_leaves(ts[0]) + (leaves_of(ts.drop_first())
            + tree_leaves(t)));
        assert(tree_leaves(ts[0]) + (leaves_of(ts.drop_first()) + tree_leaves(t)) =~= (tree_leaves(
            ts[0],
        ) + leaves_of(ts.drop_first())) + tree_leaves(t));
    }
}

/// Appending a tree to a forest appends its traversal.
pub proof fn lemma_preorder_push(ts: Seq<LlkTree>, t: LlkTree)
    ensures
        preorder_of(ts.push(t)) == preorder_of(ts) + tree_preorder(t),
    decreases ts,
{
    if ts.len() == 0 {
        reveal_with_fuel(preorder_of, 3);
        assert(ts.push(t)[0] == t);
        assert(ts.push(t).drop_first() =~= Seq::<LlkTree>::empty());
        assert(preorder_of(ts.push(t)) =~= preorder_of(ts) + tree_preorder(t));
    } else {
        assert(ts.push(t).drop_first() =~= ts.drop_first().push(t));
        lemma_preorder_push(ts.drop_first(), t);
        assert(ts.push(t)[0] == ts[0]);
        assert(preorder_of(ts.push(t)) == tree_preorder(ts[0]) + (preorder_of(ts.drop_first())
            + tree_preorder(t)));
        assert(tree_preorder(ts[0]) + (preorder_of(ts.drop_first()) + tree_preorder(t)) =~= (
        tree_preorder(ts[0]) + preorder_of(ts.drop_first())) + tree_preorder(t));
    }
}

impl LlkTree {
    /// A fresh root node for `root_symbol`, with no production chosen
    /// and no children yet.
    pub fn new(root_symbol: char) -> (r: LlkTree)
        ensures
            r is Node,
            r->Node_0.symbol == root_symbol,
            r->Node_0.production_id is None,
            r->Node_0.children@ == Seq::<LlkTree>::empty(),
    {
        let children: Vec<LlkTree> = Vec::new();
        proof {
            assert(children@ =~= Seq::<LlkTree>::empty());
        }
        LlkTree::Node(LlkTreeNode { symbol: root_symbol, production_id: None, children })
    }

    /// Appends a fresh child node for `symbol`. Only an internal node
    /// can take children.
    pub fn push_node(&mut self, symbol: char)
        requires
            *old(self) is Node,
        ensures
            *final(self) is Node,
            (*final(self))->Node_0.symbol == (*old(self))->Node_0.symbol,
            (*final(self))->Node_0.production_id == (*old(self))->Node_0.production_id,
            (*final(self))->Node_0.children@.len() == (*old(self))->Node_0.children@.len() + 1,
            (*final(self))->Node_0.children@.drop_last() == (*old(self))->Node_0.children@,
            (*final(self))->Node_0.children@.last() is Node,
            (*final(self))->Node_0.children@.last()->Node_0.symbol == symbol,
            (*final(self))->Node_0.children@.last()->Node_0.production_id is None,
            (*final(self))->Node_0.children@.last()->Node_0.children@ == Seq::<LlkTree>::empty(),
    {
        match self {
            LlkTree::Node(n) => {
                let children: Vec<LlkTree> = Vec::new();
                proof {
                    assert(children@ =~= Seq::<LlkTree>::empty());
                }
                n.children.push(
                    LlkTree::Node(LlkTreeNode { symbol, production_id: None, children }),
                );
                proof {
                    assert(n.children@.drop_last() =~= old(self)->Node_0.children@);
                }
            },
            LlkTree::Leaf(_) => {
                proof {
                    assert(false);
                }
            },
        }
    }

    /// Appends a leaf child for `symbol`. Only an internal node can
    /// take children.
    pub fn push_leaf(&mut self, symbol: char)
        requires
            *old(self) is Node,
        ensures
            *final(self) is Node,
            (*final(self))->Node_0.symbol == (*old(self))->Node_0.symbol,
            (*final(self))->Node_0.production_id == (*old(self))->Node_0.production_id,
            (*final(self))->Node_0.children@ == (*old(self))->Node_0.children@.push(
                (LlkTree::Leaf(symbol)),
            ),
    {
        match self {
            LlkTree::Node(n) => {
                n.children.push(LlkTree::Leaf(symbol));
            },
            LlkTree::Leaf(_) => {
                proof {
                    assert(false);
                }
            },
        }
    }

    /// Records the production the parser committed to. Only an
    /// internal node carries a production id.
    pub fn set_production_id(&mut self, id: usize)
        requires
            *old(self) is Node,
        ensures
            *final(self) is Node,
            (*final(self))->Node_0.symbol == (*old(self))->Node_0.symbol,
            (*final(self))->Node_0.production_id == Some(id),
            (*final(self))->Node_0.children@ == (*old(self))->Node_0.children@,
    {
        match self {
            LlkTree::Node(n) => {
                n.production_id = Some(id);
            },
            LlkTree::Leaf(_) => {
                proof {
                    assert(false);
                }
            },
        }
    }

    /// The left-root-then-children traversal as a vector of (symbol,
    /// production id) pairs.
    pub fn lrn(&self) -> (r: Vec<(char, Option<usize>)>)
        ensures
            r@ == tree_preorder(*self),
    {
        let mut out: Vec<(char, Option<usize>)> = Vec::new();
        self.lrn_into(&mut out);
        proof {
            assert(out@ =~= tree_preorder(*self));
        }
        out
    }

    /// Appends this tree's traversal to `out`.
    fn lrn_into(&self, out: &mut Vec<(char, Option<usize>)>)
        ensures
            final(out)@ == old(out)@ + tree_preorder(*self),
        decreases *self,
    {
        match self {
            LlkTree::Leaf(c) => {
                out.push((*c, None));
                proof {
                    assert(out@ =~= old(out)@ + tree_preorder(*self));
                }
            },
            LlkTree::Node(n) => {
                out.push((n.symbol, n.production_id));
                let ghost base = out@;
                proof {
                    assert(base =~= old(out)@ + seq![(n.symbol, n.production_id)]);
                }
                let mut j: usize = 0;
                while j < n.children.len()
                    invariant
                        0 <= j <= n.children@.len(),
                        *self is Node,
                        n == self->Node_0,
                        out@ == base + preorder_of(n.children@.take(j as int)),
                    decreases n.children@.len() - j,
                {
                    proof {
                        assert(decreases_to!(*self => n.children@[j as int]));
                    }
                    let child = &n.children[j];
                    child.lrn_into(out);
                    proof {
                        assert(n.children@.take(j + 1 as int) =~= n.children@.take(j as int).push(
                            n.children@[j as int],
                        ));
                        lemma_preorder_push(n.children@.take(j as int), n.children@[j as int]);
                        assert(out@ =~= base + preorder_of(n.children@.take(j + 1 as int)));
                    }
                    j = j + 1;
                }
                proof {
                    assert(n.children@.take(n.children@.len() as int) =~= n.children@);
                    assert(base + preorder_of(n.children@) =~= old(out)@ + tree_preorder(*self));
                }
            },
        }
    }
}


/// The leaves of a leaf tree are its one symbol.
pub proof fn lemma_leaf_leaves(c: char)
    ensures
        tree_leaves(LlkTree::Leaf(c)) == seq![c],
{
}

/// The traversal of a leaf tree is its one symbol, with no
/// production.
pub proof fn lemma_leaf_preorder(c: char)
    ensures
        tree_preorder(LlkTree::Leaf(c)) == seq![(c, None::<usize>)],
{
}

} // verus!
