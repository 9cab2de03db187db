use vstd::prelude::*;
use crate::avl_tree::AVLTree;
use crate::balance::{balanced, counted, keys, lemma_placed_sorted, lemma_stored_is_height, placed};
use crate::census::{held, slot_height};
use crate::index::{
    capacity_of, left, left_child, lemma_capacity_bound, lemma_level_capacity, parent, right,
    right_child, MAX_HEIGHT,
};
use crate::laws::{law_counters_are_heights, law_slots_are_listed};
use crate::order::Ordered;
use crate::retrace::{
    lemma_landing_on_path, lemma_leaf_placed, lemma_retrace_after, lemma_retrace_before,
};
use crate::search::{
    grown_with, grown_with_all, landing, landing_depth, lemma_landing_level, lemma_room_until,
    on_path, room_for, sound,
};
use crate::shape::Tree;
use crate::slots::{
    agree_off, cell_at, clean, lemma_all_under_root, lemma_height_fits,
    lemma_occupied_within_height, lemma_same_cells, lemma_tree_stored, same_but, same_cells,
    tree_of,
};
use crate::steady::{lemma_hung_values, lemma_steady_is_hung, steady};

verus! {

impl<T: Ordered> AVLTree<T> {
    /// Puts `data` as a node without children into the empty slot at which
    /// the search for its place ends, and returns the index of that slot.
    /// Where the slot lies below the last level, one level is added first.
    pub fn place(&mut self, data: T) -> (index: usize)
        requires
            old(self).layout(),
            landing_depth(old(self).shape(), data) < MAX_HEIGHT,
        ensures
            final(self).layout(),
            index == landing(old(self).cells(), data, 0),
            index >= old(self).nodes ==> final(self).height == old(self).height + 1,
            index < old(self).nodes ==> final(self).height == old(self).height,
            final(self).nodes == capacity_of(final(self).height as nat),
            same_but(old(self).cells(), final(self).cells(), index as int, index as int, index as int),
            cell_at(final(self).cells(), index as int) == Some((data, 1u32)),
    {
        let ghost s0 = self.cells();
        let mut i: usize = 0;
        proof {
            lemma_capacity_bound(self.height as nat);
        }
        loop
            invariant
                self.layout(),
                self.cells() == s0,
                self.height == old(self).height,
                self.nodes <= 0x7fff_ffff,
                landing(s0, data, i as int) == landing(s0, data, 0),
                i <= 2 * self.nodes,
            ensures
                cell_at(s0, i as int) is None,
            decreases
                (if i < self.nodes {
                    self.nodes - i
                } else {
                    0
                }),
        {
            match self.cell(i) {
                None => {
                    break ;
                },
                Some((v, _)) => {
                    i = if v.exceeds(&data) {
                        left_child(i)
                    } else {
                        right_child(i)
                    };
                },
            }
        }
        if i >= self.root.len() {
            proof {
                lemma_landing_level(s0, data, 0);
                lemma_level_capacity(i as int, self.height as nat);
            }
            self.increase_levels(1);
        }
        let ghost s1 = self.cells();
        self.insert_private(i, data);
        proof {
            crate::slots::lemma_same_cells_refl(s0);
            crate::slots::lemma_same_but_1(s1, i as int, Some((data, 1u32)), i as int, i as int);
            assert(same_but(s0, self.cells(), i as int, i as int, i as int)) by {
                reveal(same_but);
                reveal(same_cells);
            }
        }
        i
    }

    /// Removes the levels below the tree, so that the array has exactly the
    /// levels of the tree.
    pub fn fit(&mut self)
        requires
            old(self).layout(),
            clean(old(self).cells(), 0),
            counted(old(self).shape()),
        ensures
            final(self).layout(),
            same_cells(old(self).cells(), final(self).cells()),
            final(self).height == old(self).shape().height(),
    {
        let ghost s = self.cells();
        let tall = self.counter(0);
        proof {
            lemma_stored_is_height(self.shape());
            lemma_tree_stored(s, 0);
            lemma_height_fits(s, 0, self.height as nat);
            crate::slots::lemma_same_cells_refl(s);
        }
        if tall < self.height {
            assert forall|j: int| capacity_of(tall as nat) <= j implies cell_at(s, j) is None by {
                if cell_at(s, j) is Some {
                    lemma_all_under_root(j);
                    lemma_occupied_within_height(s, 0, j);
                    lemma_level_capacity(j, tall as nat);
                }
            }
            self.decrease_levels(self.height - tall);
        }
    }

    /// Adds `data` to the tree. A value equal to one in the tree is kept as
    /// well, behind it in the order. The tree is balanced again, and the
    /// array has exactly the levels of the tree, when the call returns,
    /// whatever empty levels it had below the tree before.
    pub fn insert(&mut self, data: T)
        requires
            old(self).valid(),
            landing_depth(old(self).shape(), data) < MAX_HEIGHT,
        ensures
            final(self).wf(),
            final(self).shape() == grown_with(old(self).shape(), data),
            placed(old(self)@, final(self)@, data),
            final(self).height == old(self).shape().height() || final(self).height == old(
                self,
            ).shape().height() + 1,
            held(final(self).root@, 0) == held(old(self).root@, 0).insert(data),
            forall|j: int|
                0 <= j < final(self).root@.len() && #[trigger] final(self).root@[j] is Some
                    ==> final(self).balance_factor@[j] == slot_height(final(self).root@, j)
                    && slot_height(final(self).root@, left(j)) <= slot_height(
                    final(self).root@,
                    right(j),
                ) + 1 && slot_height(final(self).root@, right(j)) <= slot_height(
                    final(self).root@,
                    left(j),
                ) + 1,
            steady(old(self).shape(), data) ==> cell_at(
                final(self).root@,
                landing(old(self).cells(), data, 0),
            ) == Some(data),
            forall|j: int|
                steady(old(self).shape(), data) && #[trigger] cell_at(old(self).root@, j) is Some
                    ==> cell_at(final(self).root@, j) == cell_at(old(self).root@, j),
            steady(old(self).shape(), data) && landing(old(self).cells(), data, 0) >= old(
                self,
            ).root@.len() ==> final(self).root@.len() == 2 * old(self).root@.len() + 1,
    {
        let ghost s0 = self.cells();
        let mut i = self.place(data);
        proof {
            lemma_landing_on_path(s0, data, 0);
            lemma_leaf_placed(s0, self.cells(), data, i as int);
        }
        while i != 0
            invariant
                self.layout(),
                clean(s0, 0),
                sound(tree_of(s0, 0)),
                on_path(s0, data, i as int),
                agree_off(s0, self.cells(), i as int),
                cell_at(self.cells(), i as int) is Some,
                clean(self.cells(), i as int),
                counted(tree_of(self.cells(), i as int)),
                balanced(tree_of(self.cells(), i as int)),
                tree_of(self.cells(), i as int) == grown_with(tree_of(s0, i as int), data),
                placed(keys(tree_of(s0, i as int)), keys(tree_of(self.cells(), i as int)), data),
                tree_of(self.cells(), i as int).height() == tree_of(s0, i as int).height()
                    || tree_of(self.cells(), i as int).height() == tree_of(s0, i as int).height()
                    + 1,
            decreases i,
        {
            let ghost cur = self.cells();
            proof {
                lemma_retrace_before(s0, cur, data, i as int);
            }
            let above = parent(i);
            self.rebalance(above);
            proof {
                lemma_retrace_after(s0, cur, self.cells(), data, i as int);
            }
            i = above;
        }
        let ghost s2 = self.cells();
        self.fit();
        proof {
            lemma_same_cells(s2, self.cells(), 0);
            lemma_placed_sorted(keys(tree_of(s0, 0)), keys(tree_of(s2, 0)), data);
            law_slots_are_listed(*old(self));
            law_slots_are_listed(*self);
            assert forall|j: int|
                0 <= j < self.root@.len() && #[trigger] self.root@[j] is Some implies self.balance_factor@[j]
                == slot_height(self.root@, j) && slot_height(self.root@, left(j)) <= slot_height(
                self.root@,
                right(j),
            ) + 1 && slot_height(self.root@, right(j)) <= slot_height(self.root@, left(j)) + 1 by {
                law_counters_are_heights(*self, j);
            }
            if steady(tree_of(s0, 0), data) {
                let s3 = self.cells();
                let k = landing(s0, data, 0);
                lemma_steady_is_hung(tree_of(s0, 0), data);
                assert forall|j: int| #[trigger] cell_at(old(self).root@, j) is Some implies cell_at(
                    self.root@,
                    j,
                ) == cell_at(old(self).root@, j) by {
                    lemma_all_under_root(j);
                    assert(cell_at(s0, j) is Some);
                    lemma_hung_values(s0, s3, data, 0, j);
                }
                lemma_hung_values(s0, s3, data, 0, 0);
                assert(cell_at(self.root@, k) == Some(data));
                if k >= old(self).root@.len() {
                    lemma_level_capacity(k, self.height as nat);
                    lemma_level_capacity(k, old(self).height as nat);
                    lemma_height_fits(s0, 0, old(self).height as nat);
                    assert(self.height == old(self).height + 1);
                    assert(capacity_of(self.height as nat) == 2 * capacity_of(
                        old(self).height as nat,
                    ) + 1);
                }
            }
        }
    }

    /// Adds `data` to the tree, as `insert` does, and says of the tree what
    /// a run of insertions needs.
    fn insert_next(&mut self, data: T)
        requires
            old(self).valid(),
            landing_depth(old(self).shape(), data) < MAX_HEIGHT,
        ensures
            final(self).wf(),
            final(self).shape() == grown_with(old(self).shape(), data),
            placed(old(self)@, final(self)@, data),
    {
        self.insert(data);
    }

    /// Adds the values of `data` to the tree, one after the other.
    pub fn insert_vec(&mut self, data: Vec<T>)
        requires
            old(self).valid(),
            room_for(old(self).shape(), data@, data@.len() as int),
        ensures
            final(self).valid(),
            data@.len() > 0 || old(self).wf() ==> final(self).wf(),
            final(self).shape() == grown_with_all(old(self).shape(), data@, data@.len() as int),
            final(self)@.to_multiset() == old(self)@.to_multiset().add(data@.to_multiset()),
            final(self)@.len() == old(self)@.len() + data@.len(),
            held(final(self).root@, 0) == held(old(self).root@, 0).add(data@.to_multiset()),
    {
        let mut n: usize = 0;
        proof {
            assert(data@.subrange(0, 0) =~= Seq::<T>::empty());
            data@.subrange(0, 0).to_multiset_ensures();
            assert(self@.to_multiset().add(data@.subrange(0, 0).to_multiset())
                =~= self@.to_multiset());
        }
        while n < data.len()
            invariant
                n <= data.len(),
                self.valid(),
                n > 0 || old(self).wf() ==> self.wf(),
                self@.len() == old(self)@.len() + n,
                self.shape() == grown_with_all(old(self).shape(), data@, n as int),
                room_for(old(self).shape(), data@, data@.len() as int),
                self@.to_multiset() == old(self)@.to_multiset().add(
                    data@.subrange(0, n as int).to_multiset(),
                ),
            decreases data.len() - n,
        {
            let ghost before = self@;
            proof {
                lemma_room_until(old(self).shape(), data@, data@.len() as int, n + 1);
            }
            self.insert_next(data[n]);
            proof {
                lemma_placed_sorted(before, self@, data@[n as int]);
                let head = data@.subrange(0, n as int);
                assert(data@.subrange(0, n + 1) =~= head.push(data@[n as int]));
                vstd::seq_lib::to_multiset_build(head, data@[n as int]);
                assert(self@.to_multiset() =~= old(self)@.to_multiset().add(
                    data@.subrange(0, n + 1).to_multiset(),
                ));
            }
            n = n + 1;
        }
        proof {
            assert(data@.subrange(0, data@.len() as int) =~= data@);
            law_slots_are_listed(*old(self));
            law_slots_are_listed(*self);
        }
    }

    /// The tree that holds the values of `vec`, put in one after the other.
    pub fn new_from_vec(vec: Vec<T>) -> (tree: AVLTree<T>)
        requires
            room_for(Tree::Leaf, vec@, vec@.len() as int),
        ensures
            tree.wf(),
            tree.shape() == grown_with_all(Tree::Leaf, vec@, vec@.len() as int),
            tree@.to_multiset() == vec@.to_multiset(),
            tree@.len() == vec@.len(),
            held(tree.root@, 0) == vec@.to_multiset(),
    {
        let mut tree = AVLTree::new();
        proof {
            assert(tree@ =~= Seq::<T>::empty());
            tree@.to_multiset_ensures();
            assert(tree@.to_multiset() =~= vstd::multiset::Multiset::<T>::empty());
        }
        tree.insert_vec(vec);
        proof {
            assert(vstd::multiset::Multiset::<T>::empty().add(vec@.to_multiset())
                =~= vec@.to_multiset());
            law_slots_are_listed(tree);
        }
        tree
    }
}

} // verus!
