use vstd::prelude::*;
use crate::balance::{above, balanced, counted, keys, sorted};
use crate::index::{
    capacity, capacity_of, lemma_capacity_bound, lemma_capacity_monotonic, level, up, MAX_HEIGHT,
};
use crate::order::Ordered;
use crate::shape::Tree;
use crate::slots::{cell_at, clean, lemma_empty_is_leaf, same_cells, tree_of};

verus! {

/// A self-balancing binary search tree kept in a flat array: slot `i` has its
/// children at `2i + 1` and `2i + 2`.
///
/// `root` holds the values and `balance_factor` the height of the subtree of
/// each occupied slot, 0 for an empty one. `nodes` is the number of slots and
/// `height` the number of levels they make up.
#[derive(Debug)]
pub struct AVLTree<T> {
    pub root: Vec<Option<T>>,
    pub balance_factor: Vec<u32>,
    pub nodes: u32,
    pub height: u32,
}

/// The number of levels of a tree that had `height` and must have `need`.
pub open spec fn grown(height: u32, need: nat) -> nat {
    if need > height {
        need
    } else {
        height as nat
    }
}

/// The number of levels that the array needs to hold `tree` with its root
/// at slot `at`: none for an empty tree.
pub open spec fn depth_needed<V>(at: int, tree: Tree<V>) -> nat {
    if tree is Leaf {
        0
    } else {
        level(at) + tree.height()
    }
}

/// One more than the larger of two counters.
pub fn counter_above(a: u32, b: u32) -> (r: u32)
    ensures
        r == above(a, b),
{
    let m = if a >= b {
        a
    } else {
        b
    };
    if m < u32::MAX {
        m + 1
    } else {
        m
    }
}

impl<T: Ordered> View for AVLTree<T> {
    type V = Seq<T>;

    /// The values of the tree in order.
    open spec fn view(&self) -> Seq<T> {
        keys(self.shape())
    }
}

impl<T: Ordered> AVLTree<T> {
    /// The slots as pairs of a value and its counter.
    pub open spec fn cells(&self) -> Seq<Option<(T, u32)>> {
        Seq::new(
            self.root@.len(),
            |i: int|
                match self.root@[i] {
                    Some(v) => Some((v, self.balance_factor@[i])),
                    None => None,
                },
        )
    }

    /// The two arrays have one entry per slot of a tree with `height` levels,
    /// and an empty slot has counter 0.
    pub open spec fn layout(&self) -> bool {
        &&& self.height <= MAX_HEIGHT
        &&& self.nodes == capacity_of(self.height as nat)
        &&& self.root@.len() == self.nodes
        &&& self.balance_factor@.len() == self.nodes
        &&& forall|i: int|
            0 <= i < self.nodes && self.root@[i] is None ==> #[trigger] self.balance_factor@[i]
                == 0
    }

    /// The tree that the slots stand for.
    pub open spec fn shape(&self) -> Tree<(T, u32)> {
        tree_of(self.cells(), 0)
    }

    /// The slots stand for a balanced search tree whose counters are the
    /// heights of its subtrees, and no occupied slot hangs under an empty
    /// one. The array may have empty levels below the tree.
    pub open spec fn valid(&self) -> bool {
        &&& self.layout()
        &&& clean(self.cells(), 0)
        &&& counted(self.shape())
        &&& balanced(self.shape())
        &&& sorted(self@)
    }

    /// The tree is valid and the array has exactly the levels of the tree.
    pub open spec fn wf(&self) -> bool {
        &&& self.valid()
        &&& self.height == self.shape().height()
    }

    /// An empty tree: no level, no slot.
    pub fn new() -> (tree: AVLTree<T>)
        ensures
            tree.wf(),
            tree.height == 0,
            tree@ == Seq::<T>::empty(),
    {
        let tree = AVLTree { root: Vec::new(), balance_factor: Vec::new(), nodes: 0, height: 0 };
        proof {
            assert(tree.cells() =~= Seq::<Option<(T, u32)>>::empty());
            crate::slots::lemma_empty_outside(tree.cells(), 0);
            lemma_empty_is_leaf(tree.cells(), 0);
            assert(tree@ =~= Seq::<T>::empty());
            assert(sorted(tree@)) by {
                reveal(sorted);
            }
        }
        tree
    }

    /// What slot `index` holds; a slot outside the array holds nothing.
    pub fn cell(&self, index: usize) -> (c: Option<(T, u32)>)
        requires
            self.layout(),
        ensures
            c == cell_at(self.cells(), index as int),
    {
        if index < self.root.len() {
            match self.root[index] {
                Some(v) => Some((v, self.balance_factor[index])),
                None => None,
            }
        } else {
            None
        }
    }

    /// The counter of slot `index`: 0 where the slot is empty or outside the array.
    pub fn counter(&self, index: usize) -> (c: u32)
        requires
            self.layout(),
        ensures
            c == (match cell_at(self.cells(), index as int) {
                Some(p) => p.1,
                None => 0,
            }),
    {
        if index < self.root.len() {
            self.balance_factor[index]
        } else {
            0
        }
    }

    /// Puts `val` with counter `count` into slot `index`.
    pub fn put(&mut self, index: usize, val: T, count: u32)
        requires
            old(self).layout(),
            index < old(self).nodes,
        ensures
            final(self).layout(),
            final(self).height == old(self).height,
            final(self).cells() == old(self).cells().update(index as int, Some((val, count))),
    {
        self.root.set(index, Some(val));
        self.balance_factor.set(index, count);
        assert(self.cells() =~= old(self).cells().update(index as int, Some((val, count))));
    }

    /// Puts `val` into slot `index` as a node without children: its counter is 1.
    pub fn insert_private(&mut self, index: usize, val: T)
        requires
            old(self).layout(),
            index < old(self).nodes,
        ensures
            final(self).layout(),
            final(self).height == old(self).height,
            final(self).cells() == old(self).cells().update(index as int, Some((val, 1u32))),
    {
        self.put(index, val, 1);
    }

    /// Empties slot `index`.
    pub fn vacate(&mut self, index: usize)
        requires
            old(self).layout(),
            index < old(self).nodes,
        ensures
            final(self).layout(),
            final(self).height == old(self).height,
            final(self).cells() == old(self).cells().update(index as int, None),
    {
        self.root.set(index, None);
        self.balance_factor.set(index, 0);
        assert(self.cells() =~= old(self).cells().update(index as int, None));
    }

    /// Adds `amount` levels of empty slots below the present ones.
    pub fn increase_levels(&mut self, amount: u32)
        requires
            old(self).layout(),
            old(self).height + amount <= MAX_HEIGHT,
        ensures
            final(self).layout(),
            final(self).height == old(self).height + amount,
            final(self).nodes == capacity_of((old(self).height + amount) as nat),
            final(self).nodes >= old(self).nodes,
            same_cells(old(self).cells(), final(self).cells()),
    {
        self.height = self.height + amount;
        self.nodes = capacity(self.height);
        proof {
            lemma_capacity_monotonic(old(self).height as nat, self.height as nat);
            lemma_capacity_bound(self.height as nat);
        }
        let target: usize = self.nodes as usize;
        while self.root.len() < target
            invariant
                target == self.nodes,
                self.height == old(self).height + amount,
                self.nodes == capacity_of(self.height as nat),
                self.height <= MAX_HEIGHT,
                old(self).root@.len() <= self.root@.len() <= target,
                self.balance_factor@.len() == self.root@.len(),
                forall|i: int|
                    0 <= i < self.root@.len() && self.root@[i] is None
                        ==> #[trigger] self.balance_factor@[i] == 0,
                forall|j: int| cell_at(self.cells(), j) == cell_at(old(self).cells(), j),
            decreases target - self.root.len(),
        {
            self.root.push(None);
            self.balance_factor.push(0);
        }
        proof {
            reveal(same_cells);
        }
    }

    /// Removes the last `amount` levels, which hold nothing.
    pub fn decrease_levels(&mut self, amount: u32)
        requires
            old(self).layout(),
            amount <= old(self).height,
            forall|j: int|
                capacity_of((old(self).height - amount) as nat) <= j ==> cell_at(
                    old(self).cells(),
                    j,
                ) is None,
        ensures
            final(self).layout(),
            final(self).height == old(self).height - amount,
            final(self).nodes == capacity_of((old(self).height - amount) as nat),
            same_cells(old(self).cells(), final(self).cells()),
    {
        self.height = self.height - amount;
        self.nodes = capacity(self.height);
        proof {
            lemma_capacity_monotonic(self.height as nat, old(self).height as nat);
        }
        self.root.truncate(self.nodes as usize);
        self.balance_factor.truncate(self.nodes as usize);
        assert forall|j: int| cell_at(self.cells(), j) == cell_at(old(self).cells(), j) by {
            if 0 <= j < self.nodes {
                assert(self.root@[j] == old(self).root@[j]);
            }
        }
        proof {
            reveal(same_cells);
        }
    }
}

} // verus!
