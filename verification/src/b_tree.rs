use vstd::prelude::*;
use crate::order::Ordered;

verus! {

/// A node of a linked search tree: a value, how often it has been put in
/// again, and the subtrees of the lesser and of the greater values.
#[derive(Debug)]
pub struct Node<T> {
    pub data: T,
    pub left: Option<Box<Node<T>>>,
    pub right: Option<Box<Node<T>>>,
    pub count: u32,
}

/// A search tree of linked nodes that counts how often a value comes again.
#[derive(Debug)]
pub struct BTree<T> {
    pub root: Option<Box<Node<T>>>,
}

/// How often `x` has been put into `tree` in all: 0 for a value that the
/// tree does not hold, and one more than the count of the node that holds it.
pub open spec fn tally<T: Ordered>(tree: Option<Box<Node<T>>>, x: T) -> nat
    decreases tree,
{
    match tree {
        None => 0,
        Some(node) => tally(node.left, x) + tally(node.right, x) + if node.data == x {
            (node.count + 1) as nat
        } else {
            0nat
        },
    }
}

/// Every value of `tree` has a rank above `low` and below `high`, where
/// these are given, the values left of a node are less than its value and
/// those right of it greater.
pub open spec fn ordered<T: Ordered>(tree: Option<Box<Node<T>>>, low: Option<int>, high: Option<int>) -> bool
    decreases tree,
{
    match tree {
        None => true,
        Some(node) => {
            &&& low matches Some(l) ==> l < node.data.rank()
            &&& high matches Some(h) ==> node.data.rank() < h
            &&& ordered(node.left, low, Some(node.data.rank()))
            &&& ordered(node.right, Some(node.data.rank()), high)
        },
    }
}

/// The tree that `tree` is after `x` has been put in: a node that holds
/// `x` counts one more, else `x` becomes a node without children where a
/// search for it ends.
pub open spec fn grown<T: Ordered>(tree: Option<Box<Node<T>>>, x: T) -> Box<Node<T>>
    decreases tree,
{
    match tree {
        None => Box::new(Node { data: x, left: None, right: None, count: 0 }),
        Some(node) => if x.rank() < node.data.rank() {
            Box::new(
                Node {
                    data: node.data,
                    left: Some(grown(node.left, x)),
                    right: node.right,
                    count: node.count,
                },
            )
        } else if x.rank() > node.data.rank() {
            Box::new(
                Node {
                    data: node.data,
                    left: node.left,
                    right: Some(grown(node.right, x)),
                    count: node.count,
                },
            )
        } else {
            Box::new(
                Node {
                    data: node.data,
                    left: node.left,
                    right: node.right,
                    count: (node.count + 1) as u32,
                },
            )
        },
    }
}

/// A value outside the bounds of an ordered tree has not been put into it.
pub proof fn lemma_outside<T: Ordered>(
    tree: Option<Box<Node<T>>>,
    low: Option<int>,
    high: Option<int>,
    x: T,
)
    requires
        ordered(tree, low, high),
        (low matches Some(l) && x.rank() <= l) || (high matches Some(h) && h <= x.rank()),
    ensures
        tally(tree, x) == 0,
    decreases tree,
{
    match tree {
        None => {},
        Some(node) => {
            lemma_outside(node.left, low, Some(node.data.rank()), x);
            lemma_outside(node.right, Some(node.data.rank()), high, x);
        },
    }
}

/// To put a value into an ordered tree keeps the tree ordered, adds one to
/// the tally of the value and leaves the tally of every other value.
pub proof fn law_grown<T: Ordered>(
    tree: Option<Box<Node<T>>>,
    low: Option<int>,
    high: Option<int>,
    x: T,
    y: T,
)
    requires
        ordered(tree, low, high),
        low matches Some(l) ==> l < x.rank(),
        high matches Some(h) ==> x.rank() < h,
        tally(tree, x) < u32::MAX,
    ensures
        ordered(Some(grown(tree, x)), low, high),
        tally(Some(grown(tree, x)), y) == tally(tree, y) + if y == x {
            1nat
        } else {
            0nat
        },
    decreases tree,
{
    match tree {
        None => {
            assert(ordered::<T>(None, low, Some(x.rank())));
            assert(ordered::<T>(None, Some(x.rank()), high));
            assert(tally::<T>(None, y) == 0);
        },
        Some(node) => {
            let here = node.data.rank();
            if x.rank() < here {
                lemma_outside(node.right, Some(here), high, x);
                law_grown(node.left, low, Some(here), x, y);
            } else if x.rank() > here {
                lemma_outside(node.left, low, Some(here), x);
                law_grown(node.right, Some(here), high, x, y);
            } else {
                T::rank_is_injective(x, node.data);
                lemma_outside(node.left, low, Some(here), x);
                lemma_outside(node.right, Some(here), high, x);
            }
        },
    }
}

impl<T: Ordered> BTree<T> {
    /// A tree without nodes.
    pub fn new() -> (tree: BTree<T>)
        ensures
            tree.root is None,
    {
        BTree { root: None }
    }

    /// The tree `root` with `data` put in.
    pub fn insert(data: T, root: Option<Box<Node<T>>>) -> (node: Box<Node<T>>)
        requires
            tally(root, data) < u32::MAX,
        ensures
            node == grown(root, data),
        decreases root,
    {
        match root {
            None => Box::new(Node { data, left: None, right: None, count: 0 }),
            Some(boxed) => {
                let mut node = *boxed;
                if node.data.exceeds(&data) {
                    node.left = Some(Self::insert(data, node.left));
                } else if data.exceeds(&node.data) {
                    node.right = Some(Self::insert(data, node.right));
                } else {
                    proof {
                        T::rank_is_injective(data, node.data);
                    }
                    node.count = node.count + 1;
                }
                Box::new(node)
            },
        }
    }

    /// Puts `data` into the tree. An ordered tree stays ordered, with one
    /// more in the tally of `data` and the tally of every other value as it
    /// was.
    pub fn add(&mut self, data: T)
        requires
            tally(old(self).root, data) < u32::MAX,
        ensures
            final(self).root == Some(grown(old(self).root, data)),
            ordered(old(self).root, None, None) ==> ordered(final(self).root, None, None),
            ordered(old(self).root, None, None) ==> forall|y: T|
                #[trigger] tally(final(self).root, y) == tally(old(self).root, y) + if y == data {
                    1nat
                } else {
                    0nat
                },
    {
        let ghost before = self.root;
        let root = self.root.take();
        self.root = Some(Self::insert(data, root));
        proof {
            if ordered(before, None, None) {
                assert forall|y: T|
                    #[trigger] tally(self.root, y) == tally(before, y) + if y == data {
                        1nat
                    } else {
                        0nat
                    } by {
                    law_grown(before, None, None, data, y);
                }
                law_grown(before, None, None, data, data);
            }
        }
    }

    /// How often `data` has been put into the tree.
    pub fn count(&self, data: T) -> (n: u64)
        requires
            ordered(self.root, None, None),
        ensures
            n == tally(self.root, data),
    {
        let mut at = &self.root;
        let ghost mut low: Option<int> = None;
        let ghost mut high: Option<int> = None;
        loop
            invariant
                ordered(*at, low, high),
                tally(*at, data) == tally(self.root, data),
            decreases *at,
        {
            match at {
                None => {
                    return 0;
                },
                Some(node) => {
                    if node.data.exceeds(&data) {
                        proof {
                            lemma_outside(node.right, Some(node.data.rank()), high, data);
                            high = Some(node.data.rank());
                        }
                        at = &node.left;
                    } else if data.exceeds(&node.data) {
                        proof {
                            lemma_outside(node.left, low, Some(node.data.rank()), data);
                            low = Some(node.data.rank());
                        }
                        at = &node.right;
                    } else {
                        proof {
                            lemma_outside(node.left, low, Some(node.data.rank()), data);
                            lemma_outside(node.right, Some(node.data.rank()), high, data);
                            T::rank_is_injective(data, node.data);
                        }
                        return node.count as u64 + 1;
                    }
                },
            }
        }
    }
}

} // verus!
