use vstd::prelude::*;
use crate::index::Direction;

verus! {

/// A binary tree as a mathematical value: what a run of slots stands for.
pub enum Tree<V> {
    Leaf,
    Node(Box<Tree<V>>, V, Box<Tree<V>>),
}

impl<V> Tree<V> {
    /// The tree with root `v`, `near` on the side `dir` and `far` on the other.
    pub open spec fn join(dir: Direction, near: Tree<V>, v: V, far: Tree<V>) -> Tree<V> {
        match dir {
            Direction::LEFT => Tree::Node(Box::new(near), v, Box::new(far)),
            Direction::RIGHT => Tree::Node(Box::new(far), v, Box::new(near)),
        }
    }

    /// The child on the side `dir`; a leaf has none.
    pub open spec fn child(self, dir: Direction) -> Tree<V> {
        match self {
            Tree::Leaf => Tree::Leaf,
            Tree::Node(l, _, r) => match dir {
                Direction::LEFT => *l,
                Direction::RIGHT => *r,
            },
        }
    }

    /// Number of levels.
    pub open spec fn height(self) -> nat
        decreases self,
    {
        match self {
            Tree::Leaf => 0,
            Tree::Node(l, _, r) => {
                let hl = l.height();
                let hr = r.height();
                if hl >= hr {
                    hl + 1
                } else {
                    hr + 1
                }
            },
        }
    }

    /// Number of nodes.
    pub open spec fn size(self) -> nat
        decreases self,
    {
        match self {
            Tree::Leaf => 0,
            Tree::Node(l, _, r) => l.size() + 1 + r.size(),
        }
    }

    /// Number of nodes without a child.
    pub open spec fn leaves(self) -> nat
        decreases self,
    {
        match self {
            Tree::Leaf => 0,
            Tree::Node(l, _, r) => if *l is Leaf && *r is Leaf {
                1
            } else {
                l.leaves() + r.leaves()
            },
        }
    }

    /// Number of nodes with two children.
    pub open spec fn full_nodes(self) -> nat
        decreases self,
    {
        match self {
            Tree::Leaf => 0,
            Tree::Node(l, _, r) => l.full_nodes() + r.full_nodes() + if *l is Node && *r is Node {
                1nat
            } else {
                0nat
            },
        }
    }

    /// The values, root before its subtrees, left before right.
    pub open spec fn pre_order(self) -> Seq<V>
        decreases self,
    {
        match self {
            Tree::Leaf => Seq::empty(),
            Tree::Node(l, v, r) => seq![v] + l.pre_order() + r.pre_order(),
        }
    }

    /// The values, left subtree, then root, then right subtree.
    pub open spec fn in_order(self) -> Seq<V>
        decreases self,
    {
        match self {
            Tree::Leaf => Seq::empty(),
            Tree::Node(l, v, r) => l.in_order() + seq![v] + r.in_order(),
        }
    }

    /// The values, subtrees before their root, left before right.
    pub open spec fn post_order(self) -> Seq<V>
        decreases self,
    {
        match self {
            Tree::Leaf => Seq::empty(),
            Tree::Node(l, v, r) => l.post_order() + r.post_order() + seq![v],
        }
    }

    /// The values `d` steps below the root, from left to right.
    pub open spec fn at_depth(self, d: nat) -> Seq<V>
        decreases self,
    {
        match self {
            Tree::Leaf => Seq::empty(),
            Tree::Node(l, v, r) => if d == 0 {
                seq![v]
            } else {
                l.at_depth((d - 1) as nat) + r.at_depth((d - 1) as nat)
            },
        }
    }

    /// The values of the first `n` levels, level by level, each from left to right.
    pub open spec fn levels(self, n: nat) -> Seq<V>
        decreases n,
    {
        if n == 0 {
            Seq::empty()
        } else {
            self.levels((n - 1) as nat) + self.at_depth((n - 1) as nat)
        }
    }

    /// The values in breadth-first order.
    pub open spec fn breadth_first(self) -> Seq<V> {
        self.levels(self.height())
    }

    /// Nothing lies at or below the height of a tree.
    pub proof fn lemma_at_depth_beyond(self, d: nat)
        requires
            d >= self.height(),
        ensures
            self.at_depth(d) == Seq::<V>::empty(),
        decreases self,
    {
        match self {
            Tree::Leaf => {},
            Tree::Node(l, _, r) => {
                l.lemma_at_depth_beyond((d - 1) as nat);
                r.lemma_at_depth_beyond((d - 1) as nat);
            },
        }
    }

    /// Levels past the height of a tree add nothing to its breadth-first order.
    pub proof fn lemma_levels_beyond(self, n: nat)
        requires
            n >= self.height(),
        ensures
            self.levels(n) == self.breadth_first(),
        decreases n,
    {
        if n > self.height() {
            self.lemma_levels_beyond((n - 1) as nat);
            self.lemma_at_depth_beyond((n - 1) as nat);
        }
    }

    /// Each traversal visits every node once.
    pub proof fn lemma_traversal_len(self)
        ensures
            self.pre_order().len() == self.size(),
            self.in_order().len() == self.size(),
            self.post_order().len() == self.size(),
        decreases self,
    {
        match self {
            Tree::Leaf => {},
            Tree::Node(l, _, r) => {
                l.lemma_traversal_len();
                r.lemma_traversal_len();
            },
        }
    }
}

} // verus!
