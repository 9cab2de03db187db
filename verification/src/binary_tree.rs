use vstd::prelude::*;
use crate::balance::{placed, sorted};
use crate::index::{
    capacity, capacity_of, left, left_child, lemma_capacity_bound, lemma_capacity_monotonic,
    lemma_level_capacity, level, parent, right, right_child, MAX_HEIGHT,
};
use crate::lookup::{find_slot, lemma_lookup, lookup};
use crate::order::Ordered;
use crate::settle::{
    fits, lemma_fits_until, lemma_placed_strict, lemma_planted_found, lemma_settle,
    lemma_settle_level, lemma_settled_is_placed, lemma_strict_is_sorted, planted, planted_all,
    settle, settle_depth, strictly_sorted,
};
use crate::shape::Tree;
use crate::slots::{
    agree_off, cell_at, clean, empty_below, lemma_empty_from_children, lemma_empty_is_leaf,
    lemma_same_cells, lemma_same_cells_refl, same_but, same_cells, tree_of,
};
use crate::traverse::{
    breadth_first_of, full_nodes_of, height_of, in_order_of, leaves_of, post_order_of,
    pre_order_of, size_of, slot,
};

verus! {

/// A binary search tree kept in a flat array: slot `i` has its children at
/// `2i + 1` and `2i + 2`. It holds no value twice and is not kept balanced.
///
/// `nodes` is the number of slots and `height` the number of levels they
/// make up.
#[derive(Debug)]
pub struct BinaryTree<T> {
    pub root: Vec<Option<T>>,
    pub nodes: u32,
    pub height: u32,
}

impl<T: Ordered> View for BinaryTree<T> {
    type V = Seq<T>;

    /// The values of the tree in order.
    open spec fn view(&self) -> Seq<T> {
        self.shape().in_order()
    }
}

impl<T: Ordered> BinaryTree<T> {
    /// The tree that the slots stand for.
    pub open spec fn shape(&self) -> Tree<T> {
        tree_of(self.root@, 0)
    }

    /// The array has one entry per slot of a tree with `height` levels.
    pub open spec fn layout(&self) -> bool {
        &&& self.height <= MAX_HEIGHT
        &&& self.nodes == capacity_of(self.height as nat)
        &&& self.root@.len() == self.nodes
    }

    /// The slots stand for a search tree without equal values, and no
    /// occupied slot hangs under an empty one.
    pub open spec fn wf(&self) -> bool {
        &&& self.layout()
        &&& clean(self.root@, 0)
        &&& strictly_sorted(self@)
    }

    /// An empty tree: no level, no slot.
    pub fn new() -> (tree: BinaryTree<T>)
        ensures
            tree.wf(),
            tree.height == 0,
            tree@ == Seq::<T>::empty(),
    {
        let tree = BinaryTree { root: Vec::new(), nodes: 0, height: 0 };
        proof {
            crate::slots::lemma_empty_outside(tree.root@, 0);
            lemma_empty_is_leaf(tree.root@, 0);
            assert(tree@ =~= Seq::<T>::empty());
            assert(strictly_sorted(tree@)) by {
                reveal(strictly_sorted);
            }
        }
        tree
    }

    /// The tree of one level that holds `data`.
    pub fn new_with_data(data: T) -> (tree: BinaryTree<T>)
        ensures
            tree.wf(),
            tree.height == 1,
            tree@ == seq![data],
    {
        let mut root: Vec<Option<T>> = Vec::new();
        root.push(Some(data));
        let tree = BinaryTree { root, nodes: 1, height: 1 };
        proof {
            reveal_with_fuel(capacity_of, 2);
            crate::slots::lemma_empty_outside(tree.root@, 1);
            crate::slots::lemma_empty_outside(tree.root@, 2);
            lemma_empty_is_leaf(tree.root@, 1);
            lemma_empty_is_leaf(tree.root@, 2);
            crate::slots::lemma_clean_from_children(tree.root@, 0);
            crate::slots::lemma_tree_unfold(tree.root@, 0);
            assert(tree_of(tree.root@, 1).in_order() =~= Seq::<T>::empty());
            assert(tree_of(tree.root@, 2).in_order() =~= Seq::<T>::empty());
            assert(tree@ =~= seq![data]);
            assert(strictly_sorted(tree@)) by {
                reveal(strictly_sorted);
            }
        }
        tree
    }

    /// The left child of `idx`.
    pub fn left_child(idx: usize) -> (r: usize)
        requires
            2 * idx + 1 <= usize::MAX,
        ensures
            r == left(idx as int),
    {
        left_child(idx)
    }

    /// The right child of `idx`.
    pub fn right_child(idx: usize) -> (r: usize)
        requires
            2 * idx + 2 <= usize::MAX,
        ensures
            r == right(idx as int),
    {
        right_child(idx)
    }

    /// The parent of `idx`.
    pub fn parent(idx: usize) -> (r: usize)
        requires
            idx > 0,
        ensures
            r == crate::index::up(idx as int),
    {
        parent(idx)
    }

    /// Adds `amount` levels of empty slots below the present ones.
    pub fn increase_levels(&mut self, amount: u32)
        requires
            old(self).layout(),
            old(self).height + amount <= MAX_HEIGHT,
        ensures
            final(self).layout(),
            final(self).height == old(self).height + amount,
            final(self).nodes == capacity_of((old(self).height + amount) as nat),
            final(self).nodes >= old(self).nodes,
            same_cells(old(self).root@, final(self).root@),
    {
        self.height = self.height + amount;
        self.nodes = capacity(self.height);
        proof {
            lemma_capacity_monotonic(old(self).height as nat, self.height as nat);
            lemma_capacity_bound(self.height as nat);
        }
        let target: usize = self.nodes as usize;
        while self.root.len() < target
            invariant
                target == self.nodes,
                self.height == old(self).height + amount,
                self.nodes == capacity_of(self.height as nat),
                self.height <= MAX_HEIGHT,
                old(self).root@.len() <= self.root@.len() <= target,
                forall|j: int| cell_at(self.root@, j) == cell_at(old(self).root@, j),
            decreases target - self.root.len(),
        {
            self.root.push(None);
        }
        proof {
            reveal(same_cells);
        }
    }

    /// Removes the last `amount` levels, which hold nothing.
    pub fn decrease_levels(&mut self, amount: u32)
        requires
            old(self).layout(),
            amount <= old(self).height,
            forall|j: int|
                capacity_of((old(self).height - amount) as nat) <= j ==> cell_at(
                    old(self).root@,
                    j,
                ) is None,
        ensures
            final(self).layout(),
            final(self).height == old(self).height - amount,
            final(self).nodes == capacity_of((old(self).height - amount) as nat),
            same_cells(old(self).root@, final(self).root@),
    {
        self.height = self.height - amount;
        self.nodes = capacity(self.height);
        proof {
            lemma_capacity_monotonic(self.height as nat, old(self).height as nat);
        }
        self.root.truncate(self.nodes as usize);
        assert forall|j: int| cell_at(self.root@, j) == cell_at(old(self).root@, j) by {
            if 0 <= j < self.nodes {
                assert(self.root@[j] == old(self).root@[j]);
            }
        }
        proof {
            reveal(same_cells);
        }
    }

    /// Adds levels until slot `index` exists.
    pub fn reach(&mut self, index: usize)
        requires
            old(self).layout(),
            level(index as int) < MAX_HEIGHT,
        ensures
            final(self).layout(),
            final(self).height == (if level(index as int) < old(self).height {
                old(self).height as nat
            } else {
                level(index as int) + 1
            }),
            final(self).nodes >= old(self).nodes,
            index < final(self).nodes,
            same_cells(old(self).root@, final(self).root@),
    {
        proof {
            lemma_same_cells_refl(self.root@);
        }
        while index >= self.root.len()
            invariant
                self.layout(),
                self.height >= old(self).height,
                self.height == old(self).height || self.height <= level(index as int) + 1,
                self.nodes >= old(self).nodes,
                level(index as int) < MAX_HEIGHT,
                same_cells(old(self).root@, self.root@),
            decreases MAX_HEIGHT - self.height,
        {
            proof {
                lemma_level_capacity(index as int, self.height as nat);
            }
            let ghost before = self.root@;
            self.increase_levels(1);
            proof {
                crate::slots::lemma_same_cells_trans(old(self).root@, before, self.root@);
            }
        }
        proof {
            lemma_level_capacity(index as int, self.height as nat);
        }
    }

    /// Puts `data` into the subtree rooted at `idx`, at the empty slot at
    /// which the search for it ends, unless the search finds `data`. Where
    /// the empty slot lies below the last level, the levels down to it are
    /// added first.
    pub fn insert_at(&mut self, idx: usize, data: T)
        requires
            old(self).layout(),
            level(idx as int) + settle_depth(tree_of(old(self).root@, idx as int), data)
                < MAX_HEIGHT,
            clean(old(self).root@, idx as int),
            sorted(tree_of(old(self).root@, idx as int).in_order()),
        ensures
            final(self).layout(),
            final(self).height >= old(self).height,
            tree_of(final(self).root@, idx as int) == planted(
                tree_of(old(self).root@, idx as int),
                data,
            ),
            lookup(old(self).root@, data, idx as int) is Some ==> final(self).root@ == old(
                self,
            ).root@ && final(self).height == old(self).height,
            lookup(old(self).root@, data, idx as int) is None ==> {
                let k = settle(old(self).root@, data, idx as int);
                &&& same_but(old(self).root@, final(self).root@, k, k, k)
                &&& cell_at(final(self).root@, k) == Some(data)
                &&& (k < old(self).nodes ==> final(self).height == old(self).height)
                &&& (k >= old(self).nodes ==> final(self).height == level(k) + 1)
                &&& placed(
                    tree_of(old(self).root@, idx as int).in_order(),
                    tree_of(final(self).root@, idx as int).in_order(),
                    data,
                )
                &&& clean(final(self).root@, idx as int)
                &&& agree_off(old(self).root@, final(self).root@, idx as int)
            },
    {
        let ghost s0 = self.root@;
        let mut i: usize = idx;
        proof {
            lemma_capacity_bound(self.height as nat);
            lemma_settle(s0, data, idx as int);
            lemma_settle_level(s0, data, idx as int);
        }
        loop
            invariant
                self.layout(),
                self.root@ == s0,
                self.height == old(self).height,
                self.nodes <= 0x7fff_ffff,
                settle(s0, data, i as int) == settle(s0, data, idx as int),
                lookup(s0, data, i as int) == lookup(s0, data, idx as int),
            ensures
                i == settle(s0, data, idx as int),
                cell_at(s0, i as int) is None,
                lookup(s0, data, idx as int) is None,
            decreases
                (if i < self.nodes {
                    self.nodes - i
                } else {
                    0
                }),
        {
            match slot(&self.root, i) {
                None => {
                    break ;
                },
                Some(v) => {
                    if v.same_as(&data) {
                        proof {
                            lemma_planted_found(s0, data, idx as int);
                        }
                        return ;
                    }
                    i = if v.exceeds(&data) {
                        left_child(i)
                    } else {
                        right_child(i)
                    };
                },
            }
        }
        proof {
            lemma_settle(s0, data, i as int);
        }
        proof {
            lemma_level_capacity(i as int, self.height as nat);
        }
        self.reach(i);
        let ghost s1 = self.root@;
        self.root.set(i, Some(data));
        proof {
            crate::slots::lemma_same_but_1(s1, i as int, Some(data), i as int, i as int);
            assert(same_but(s0, self.root@, i as int, i as int, i as int)) by {
                reveal(same_but);
                reveal(same_cells);
            }
            lemma_settled_is_placed(s0, self.root@, data, idx as int);
        }
    }

    /// Puts the values of `data` into the subtree rooted at `idx`, one after
    /// the other.
    pub fn insert_vec_at(&mut self, idx: usize, data: Vec<T>)
        requires
            old(self).layout(),
            fits(
                tree_of(old(self).root@, idx as int),
                data@,
                data@.len() as int,
                level(idx as int),
            ),
            clean(old(self).root@, idx as int),
            sorted(tree_of(old(self).root@, idx as int).in_order()),
        ensures
            final(self).layout(),
            final(self).height >= old(self).height,
            tree_of(final(self).root@, idx as int) == planted_all(
                tree_of(old(self).root@, idx as int),
                data@,
                data@.len() as int,
            ),
            clean(final(self).root@, idx as int),
            sorted(tree_of(final(self).root@, idx as int).in_order()),
            agree_off(old(self).root@, final(self).root@, idx as int),
            forall|v: T|
                #[trigger] tree_of(final(self).root@, idx as int).in_order().contains(v) <==> tree_of(
                    old(self).root@,
                    idx as int,
                ).in_order().contains(v) || data@.contains(v),
    {
        let mut n: usize = 0;
        proof {
            lemma_same_cells_refl(self.root@);
            lemma_same_cells(self.root@, self.root@, idx as int);
        }
        while n < data.len()
            invariant
                n <= data.len(),
                self.layout(),
                self.height >= old(self).height,
                fits(
                    tree_of(old(self).root@, idx as int),
                    data@,
                    data@.len() as int,
                    level(idx as int),
                ),
                tree_of(self.root@, idx as int) == planted_all(
                    tree_of(old(self).root@, idx as int),
                    data@,
                    n as int,
                ),
                clean(self.root@, idx as int),
                sorted(tree_of(self.root@, idx as int).in_order()),
                agree_off(old(self).root@, self.root@, idx as int),
                forall|v: T|
                    #[trigger] tree_of(self.root@, idx as int).in_order().contains(v) <==> tree_of(
                        old(self).root@,
                        idx as int,
                    ).in_order().contains(v) || data@.subrange(0, n as int).contains(v),
            decreases data.len() - n,
        {
            let ghost before = self.root@;
            let ghost had = tree_of(before, idx as int).in_order();
            let ghost height = self.height;
            proof {
                lemma_fits_until(
                    tree_of(old(self).root@, idx as int),
                    data@,
                    data@.len() as int,
                    level(idx as int),
                    n + 1,
                );
            }
            self.insert_at(idx, data[n]);
            proof {
                let x = data@[n as int];
                let has = tree_of(self.root@, idx as int).in_order();
                lemma_lookup(before, x, idx as int);
                lemma_capacity_monotonic(height as nat, self.height as nat);
                if lookup(before, x, idx as int) is None {
                    crate::balance::lemma_placed_sorted(had, has, x);
                    crate::slots::lemma_agree_off_trans(
                        old(self).root@,
                        before,
                        self.root@,
                        idx as int,
                    );
                    lemma_placed_contains(had, has, x);
                }
                let head = data@.subrange(0, n as int);
                let more = data@.subrange(0, n + 1);
                assert(more =~= head.push(x));
                assert forall|v: T| #[trigger] has.contains(v) <==> tree_of(
                    old(self).root@,
                    idx as int,
                ).in_order().contains(v) || more.contains(v) by {
                    if head.contains(v) {
                        let k = choose|k: int| 0 <= k < head.len() && head[k] == v;
                        assert(more[k] == v);
                    }
                    if more.contains(v) {
                        let k = choose|k: int| 0 <= k < more.len() && more[k] == v;
                        if k < n {
                            assert(head[k] == v);
                        }
                    }
                    assert(more[n as int] == x);
                }
            }
            n = n + 1;
        }
        proof {
            assert(n == data.len());
            assert(data@.subrange(0, n as int) =~= data@);
        }
    }

    /// Adds `data` to the tree, unless the tree holds it.
    pub fn insert(&mut self, data: T)
        requires
            old(self).wf(),
            settle_depth(old(self).shape(), data) < MAX_HEIGHT,
        ensures
            final(self).wf(),
            final(self).height >= old(self).height,
            final(self).shape() == planted(old(self).shape(), data),
            old(self)@.contains(data) ==> final(self).root@ == old(self).root@,
            !old(self)@.contains(data) ==> {
                let k = settle(old(self).root@, data, 0);
                &&& same_but(old(self).root@, final(self).root@, k, k, k)
                &&& cell_at(final(self).root@, k) == Some(data)
                &&& final(self).height == (if k < old(self).nodes {
                    old(self).height as nat
                } else {
                    level(k) + 1
                })
                &&& placed(old(self)@, final(self)@, data)
            },
    {
        proof {
            lemma_strict_is_sorted(self@);
            lemma_lookup(self.root@, data, 0);
        }
        self.insert_at(0, data);
        proof {
            if !old(self)@.contains(data) {
                lemma_placed_strict(old(self)@, self@, data);
            }
        }
    }

    /// Adds the values of `data` to the tree, one after the other.
    pub fn insert_vec(&mut self, data: Vec<T>)
        requires
            old(self).wf(),
            fits(old(self).shape(), data@, data@.len() as int, 0),
        ensures
            final(self).wf(),
            final(self).height >= old(self).height,
            final(self).shape() == planted_all(old(self).shape(), data@, data@.len() as int),
            forall|v: T|
                #[trigger] final(self)@.contains(v) <==> old(self)@.contains(v) || data@.contains(v),
    {
        let mut n: usize = 0;
        while n < data.len()
            invariant
                n <= data.len(),
                self.wf(),
                self.height >= old(self).height,
                fits(old(self).shape(), data@, data@.len() as int, 0),
                self.shape() == planted_all(old(self).shape(), data@, n as int),
                forall|v: T|
                    #[trigger] self@.contains(v) <==> old(self)@.contains(v) || data@.subrange(
                        0,
                        n as int,
                    ).contains(v),
            decreases data.len() - n,
        {
            let ghost had = self@;
            proof {
                lemma_fits_until(old(self).shape(), data@, data@.len() as int, 0, n + 1);
            }
            self.insert(data[n]);
            proof {
                let x = data@[n as int];
                let has = self@;
                if !had.contains(x) {
                    lemma_placed_contains(had, has, x);
                }
                let head = data@.subrange(0, n as int);
                let more = data@.subrange(0, n + 1);
                assert(more =~= head.push(x));
                assert forall|v: T| #[trigger] has.contains(v) <==> old(self)@.contains(v) || more.contains(
                    v,
                ) by {
                    if head.contains(v) {
                        let k = choose|k: int| 0 <= k < head.len() && head[k] == v;
                        assert(more[k] == v);
                    }
                    if more.contains(v) {
                        let k = choose|k: int| 0 <= k < more.len() && more[k] == v;
                        if k < n {
                            assert(head[k] == v);
                        }
                    }
                    assert(more[n as int] == x);
                }
            }
            n = n + 1;
        }
        proof {
            assert(n == data.len());
            assert(data@.subrange(0, n as int) =~= data@);
        }
    }

    /// Whether `data` is among the values of the tree.
    pub fn contains(&self, data: T) -> (b: bool)
        requires
            self.wf(),
        ensures
            b == self@.contains(data),
    {
        proof {
            lemma_strict_is_sorted(self@);
            lemma_lookup(self.root@, data, 0);
        }
        find_slot(&self.root, data).is_some()
    }

    /// The index of the slot that holds `data`, or an error where `data` is
    /// not among the values of the tree.
    pub fn find(&self, data: T) -> (r: Result<usize, String>)
        requires
            self.wf(),
        ensures
            r is Ok <==> self@.contains(data),
            r matches Ok(i) ==> lookup(self.root@, data, 0) == Some(i as int) && cell_at(
                self.root@,
                i as int,
            ) == Some(data),
            r matches Err(e) ==> e@ == "No node found"@,
    {
        proof {
            lemma_strict_is_sorted(self@);
            lemma_lookup(self.root@, data, 0);
        }
        match find_slot(&self.root, data) {
            Some(i) => Ok(i),
            None => Err("No node found".to_owned()),
        }
    }

    /// The child of slot `idx` at which a search for `data` goes on, or an
    /// error where the slot is empty.
    pub fn get_child(&self, idx: usize, data: T) -> (r: Result<usize, String>)
        requires
            self.layout(),
        ensures
            match cell_at(self.root@, idx as int) {
                Some(v) => r == Ok::<usize, String>(
                    if v.rank() > data.rank() {
                        left(idx as int) as usize
                    } else {
                        right(idx as int) as usize
                    },
                ),
                None => r matches Err(e) && e@ == "No node found"@,
            },
    {
        proof {
            lemma_capacity_bound(self.height as nat);
        }
        match slot(&self.root, idx) {
            None => Err("No node found".to_owned()),
            Some(v) => {
                if v.exceeds(&data) {
                    Ok(left_child(idx))
                } else {
                    Ok(right_child(idx))
                }
            },
        }
    }

    /// Whether slot `idx` has no children in the array.
    pub fn next_index_out(&self, idx: usize) -> (b: bool)
        ensures
            b == (right(idx as int) > self.root@.len()),
    {
        let len: usize = self.root.len();
        len < 2 || idx > (len - 2) / 2
    }

    /// Whether slot `idx` or its children lie outside the array.
    pub fn index_out(&self, idx: usize) -> (b: bool)
        ensures
            b == (right(idx as int) > self.root@.len()),
    {
        self.next_index_out(idx)
    }

    /// The values from slot `idx` down, root first.
    pub fn pre_order_from(&self, idx: usize) -> (r: Vec<T>)
        ensures
            r@ == tree_of(self.root@, idx as int).pre_order(),
    {
        pre_order_of(&self.root, idx)
    }

    /// The values of the tree, root first.
    pub fn pre_order(&self) -> (r: Vec<T>)
        ensures
            r@ == self.shape().pre_order(),
    {
        self.pre_order_from(0)
    }

    /// The values from slot `idx` down, in order.
    pub fn in_order_from(&self, idx: usize) -> (r: Vec<T>)
        ensures
            r@ == tree_of(self.root@, idx as int).in_order(),
    {
        in_order_of(&self.root, idx)
    }

    /// The values of the tree in order.
    pub fn in_order(&self) -> (r: Vec<T>)
        ensures
            r@ == self@,
    {
        self.in_order_from(0)
    }

    /// The values from slot `idx` down, root last.
    pub fn post_order_from(&self, idx: usize) -> (r: Vec<T>)
        ensures
            r@ == tree_of(self.root@, idx as int).post_order(),
    {
        post_order_of(&self.root, idx)
    }

    /// The values of the tree, root last.
    pub fn post_order(&self) -> (r: Vec<T>)
        ensures
            r@ == self.shape().post_order(),
    {
        self.post_order_from(0)
    }

    /// The values from slot `idx` down, level by level.
    pub fn bfs_from(&self, idx: usize) -> (r: Vec<T>)
        ensures
            r@ == tree_of(self.root@, idx as int).breadth_first(),
    {
        breadth_first_of(&self.root, idx)
    }

    /// The values of the tree, level by level.
    pub fn bfs(&self) -> (r: Vec<T>)
        ensures
            r@ == self.shape().breadth_first(),
    {
        self.bfs_from(0)
    }

    /// Number of values in the tree.
    pub fn num_nodes(&self) -> (r: u32)
        requires
            self.layout(),
        ensures
            r == self.shape().size(),
            r == self@.len(),
    {
        proof {
            lemma_capacity_bound(self.height as nat);
            self.shape().lemma_traversal_len();
        }
        size_of(&self.root, 0) as u32
    }

    /// Number of nodes without a child.
    pub fn num_leaves(&self) -> (r: u32)
        requires
            self.layout(),
        ensures
            r == self.shape().leaves(),
    {
        proof {
            lemma_capacity_bound(self.height as nat);
        }
        leaves_of(&self.root, 0) as u32
    }

    /// Number of nodes with two children.
    pub fn num_two_children(&self) -> (r: u32)
        requires
            self.layout(),
        ensures
            r == self.shape().full_nodes(),
    {
        proof {
            lemma_capacity_bound(self.height as nat);
        }
        full_nodes_of(&self.root, 0) as u32
    }

    /// Number of levels of the tree.
    pub fn num_levels(&self) -> (r: u32)
        requires
            self.layout(),
        ensures
            r == self.shape().height(),
    {
        proof {
            lemma_capacity_bound(self.height as nat);
        }
        height_of(&self.root, 0) as u32
    }

    /// Empties every slot from `idx` down.
    pub fn clear_from(&mut self, idx: usize)
        requires
            old(self).layout(),
        ensures
            final(self).layout(),
            final(self).height == old(self).height,
            empty_below(final(self).root@, idx as int),
            agree_off(old(self).root@, final(self).root@, idx as int),
        decreases
            (if idx < old(self).nodes {
                old(self).nodes - idx
            } else {
                0
            }),
    {
        let ghost s0 = self.root@;
        let ghost p = idx as int;
        proof {
            lemma_capacity_bound(self.height as nat);
        }
        if idx < self.root.len() {
            self.root.set(idx, None);
            let ghost s1 = self.root@;
            self.clear_from(left_child(idx));
            let ghost s2 = self.root@;
            self.clear_from(right_child(idx));
            proof {
                let s3 = self.root@;
                crate::moves::lemma_children_under(p);
                crate::index::lemma_children_apart(p);
                crate::index::lemma_not_under_child(p);
                crate::slots::lemma_update_agree_off(s0, p, None, p);
                crate::slots::lemma_off_within(s1, s2, left(p), p);
                crate::slots::lemma_off_within(s2, s3, right(p), p);
                crate::slots::lemma_agree_off_trans(s0, s1, s2, p);
                crate::slots::lemma_agree_off_trans(s0, s2, s3, p);
                crate::slots::lemma_agree_off_at(s1, s2, left(p), p);
                crate::slots::lemma_agree_off_at(s2, s3, right(p), p);
                crate::slots::lemma_off_gives_on(s2, s3, right(p), left(p));
                crate::slots::lemma_agree_transfers(s2, s3, left(p));
                lemma_empty_from_children(s3, p);
            }
        } else {
            proof {
                crate::slots::lemma_empty_outside(s0, p);
                lemma_same_cells_refl(s0);
                lemma_same_cells(s0, s0, p);
            }
        }
    }
}

/// A sequence with a value put in holds that value and what it held before,
/// and nothing else.
pub proof fn lemma_placed_contains<T: Ordered>(before: Seq<T>, after: Seq<T>, x: T)
    requires
        placed(before, after, x),
    ensures
        forall|v: T| #[trigger] after.contains(v) <==> before.contains(v) || v == x,
{
    let k = choose|k: int| crate::balance::placed_at(before, after, x, k);
    assert forall|v: T| #[trigger] after.contains(v) <==> before.contains(v) || v == x by {
        if after.contains(v) {
            let j = choose|j: int| 0 <= j < after.len() && after[j] == v;
            if j < k {
                assert(before[j] == v);
            } else if j > k {
                assert(before[j - 1] == v);
            }
        }
        if before.contains(v) {
            let j = choose|j: int| 0 <= j < before.len() && before[j] == v;
            if j < k {
                assert(after[j] == v);
            } else {
                assert(after[j + 1] == v);
            }
        }
        assert(after[k] == x);
    }
}

} // verus!
