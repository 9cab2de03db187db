use vstd::prelude::*;
use crate::binary_tree::BinaryTree;
use crate::index::{
    apart, in_subtree, left, left_child, lemma_capacity_bound, lemma_level_capacity,
    lemma_level_of_child, level, parent, right, right_child, sibling, side, up,
};
use crate::lookup::{find_slot, lemma_lookup};
use crate::moves::{
    lemma_children_under, lemma_relocate_end, lemma_relocate_mid, lemma_relocate_start,
    lemma_shift_up_end, lemma_shift_up_mid, lemma_shift_up_nothing, lemma_shift_up_start,
};
use crate::order::Ordered;
use crate::removal::{
    last_slot, last_value, lemma_clean_patch, lemma_last_cut, lemma_last_cut_shape,
    lemma_taken_lift, lemma_taken_strict, lemma_without_lift, lemma_without_nothing, taken,
    taken_at, without, without_last,
};
use crate::retrace::lemma_clean_everywhere;
use crate::settle::lemma_strict_is_sorted;
use crate::slots::{
    agree_off, agree_off2, cell_at, clean, empty_below, lemma_clean_children, lemma_clean_empty,
    lemma_empty_from_children, lemma_empty_is_leaf, lemma_height_fits, lemma_same_cells,
    lemma_same_cells_refl, lemma_tree_unfold, tree_of,
};
use crate::traverse::slot;

verus! {

impl<T: Ordered> BinaryTree<T> {
    /// Moves the subtree rooted at `from` to the empty place rooted at `to`,
    /// where the two places share no slot and the array has the levels that
    /// the subtree needs there.
    pub fn relocate(&mut self, from: usize, to: usize)
        requires
            old(self).layout(),
            apart(from as int, to as int),
            clean(old(self).root@, from as int),
            empty_below(old(self).root@, to as int),
            level(to as int) + tree_of(old(self).root@, from as int).height() <= old(self).height,
        ensures
            final(self).layout(),
            final(self).height == old(self).height,
            tree_of(final(self).root@, to as int) == tree_of(old(self).root@, from as int),
            clean(final(self).root@, to as int),
            empty_below(final(self).root@, from as int),
            agree_off2(old(self).root@, final(self).root@, from as int, to as int),
        decreases tree_of(old(self).root@, from as int).height(),
    {
        let ghost s0 = self.root@;
        let ghost f = from as int;
        let ghost t = to as int;
        proof {
            lemma_capacity_bound(self.height as nat);
        }
        match slot(&self.root, from) {
            None => {
                proof {
                    lemma_clean_empty(s0, f);
                    lemma_empty_is_leaf(s0, f);
                    lemma_empty_is_leaf(s0, t);
                    lemma_same_cells_refl(s0);
                    lemma_same_cells(s0, s0, f);
                    crate::slots::lemma_off_widen2(s0, s0, f, t);
                }
            },
            Some(v) => {
                proof {
                    lemma_tree_unfold(s0, f);
                    lemma_level_of_child(t);
                    lemma_level_capacity(t, self.height as nat);
                    lemma_same_cells_refl(s0);
                }
                self.root.set(to, Some(v));
                self.root.set(from, None);
                let ghost s3 = self.root@;
                proof {
                    lemma_relocate_start(s0, s0, s3, f, t, v);
                }
                self.relocate(left_child(from), left_child(to));
                let ghost s4 = self.root@;
                proof {
                    lemma_relocate_mid(s3, s4, f, t);
                }
                self.relocate(right_child(from), right_child(to));
                proof {
                    lemma_relocate_end(s0, s3, s4, self.root@, f, t, v);
                }
            },
        }
    }

    /// Moves the subtree rooted at `from` one step up, to the parent of
    /// `from`, which is empty, as is all under the other child of that parent.
    pub fn shift_up(&mut self, from: usize)
        requires
            old(self).layout(),
            from > 0,
            clean(old(self).root@, from as int),
            cell_at(old(self).root@, up(from as int)) is None,
            empty_below(old(self).root@, sibling(from as int)),
        ensures
            final(self).layout(),
            final(self).height == old(self).height,
            tree_of(final(self).root@, up(from as int)) == tree_of(old(self).root@, from as int),
            clean(final(self).root@, up(from as int)),
            agree_off(old(self).root@, final(self).root@, up(from as int)),
        decreases tree_of(old(self).root@, from as int).height(),
    {
        let ghost s0 = self.root@;
        let ghost f = from as int;
        let dir = side(from);
        match slot(&self.root, from) {
            None => {
                proof {
                    lemma_shift_up_nothing(s0, f, dir);
                }
            },
            Some(v) => {
                proof {
                    lemma_tree_unfold(s0, f);
                    lemma_capacity_bound(self.height as nat);
                    lemma_height_fits(s0, f, self.height as nat);
                    lemma_level_of_child(up(f));
                    lemma_level_of_child(f);
                }
                let to = parent(from);
                let near = dir.towards(from);
                let far = dir.against(from);
                let beside = dir.against(to);
                self.root.set(to, Some(v));
                self.root.set(from, None);
                let ghost s1 = self.root@;
                proof {
                    lemma_shift_up_start(s0, s1, f, dir, v);
                }
                self.relocate(far, beside);
                let ghost s2 = self.root@;
                proof {
                    lemma_shift_up_mid(s1, s2, f, dir);
                }
                self.shift_up(near);
                proof {
                    lemma_shift_up_end(s0, s1, s2, self.root@, f, dir, v);
                }
            },
        }
    }

    /// Takes the value that comes last in order out of the tree at slot
    /// `idx` and returns it; the left subtree of its slot comes up into the
    /// slot.
    pub fn pop_last(&mut self, idx: usize) -> (last: T)
        requires
            old(self).layout(),
            cell_at(old(self).root@, idx as int) is Some,
            clean(old(self).root@, idx as int),
        ensures
            final(self).layout(),
            final(self).height == old(self).height,
            cell_at(old(self).root@, last_slot(old(self).root@, idx as int)) == Some(last),
            last == last_value(tree_of(old(self).root@, idx as int)),
            tree_of(final(self).root@, idx as int) == without_last(
                tree_of(old(self).root@, idx as int),
            ),
            tree_of(old(self).root@, idx as int).in_order() == tree_of(
                final(self).root@,
                idx as int,
            ).in_order().push(last),
            clean(final(self).root@, idx as int),
            agree_off(old(self).root@, final(self).root@, idx as int),
    {
        let ghost s0 = self.root@;
        let ghost j = idx as int;
        let mut p: usize = idx;
        proof {
            lemma_capacity_bound(self.height as nat);
            assert(in_subtree(j, j));
        }
        loop
            invariant
                self.layout(),
                self.root@ == s0,
                self.nodes <= 0x7fff_ffff,
                cell_at(s0, p as int) is Some,
                in_subtree(p as int, j),
                last_slot(s0, p as int) == last_slot(s0, j),
            ensures
                p == last_slot(s0, j),
                cell_at(s0, p as int) is Some,
                cell_at(s0, right(p as int)) is None,
                in_subtree(p as int, j),
            decreases self.nodes - p,
        {
            let next = right_child(p);
            match slot(&self.root, next) {
                None => {
                    break ;
                },
                Some(_) => {
                    proof {
                        lemma_children_under(p as int);
                        crate::slots::lemma_subtree_trans(next as int, p as int, j);
                    }
                    p = next;
                },
            }
        }
        let ghost q = p as int;
        let last = slot(&self.root, p).unwrap();
        self.root.set(p, None);
        let ghost s1 = self.root@;
        proof {
            crate::slots::lemma_clean_within(s0, j, q);
            lemma_clean_children(s0, q);
            lemma_clean_empty(s0, right(q));
            lemma_children_under(q);
            crate::index::lemma_not_under_child(q);
            crate::slots::lemma_update_agree_on(s0, q, None, left(q));
            crate::slots::lemma_update_agree_on(s0, q, None, right(q));
            crate::slots::lemma_agree_transfers(s0, s1, left(q));
            crate::slots::lemma_agree_transfers(s0, s1, right(q));
            crate::slots::lemma_tree_agree(s0, s1, left(q));
            crate::slots::lemma_update_agree_off(s0, q, None, q);
            assert(up(left(q)) == q);
            assert(sibling(left(q)) == right(q));
        }
        self.shift_up(left_child(p));
        proof {
            let s2 = self.root@;
            crate::slots::lemma_agree_off_trans(s0, s1, s2, q);
            lemma_last_cut(s0, s2, j);
            lemma_last_cut_shape(s0, s2, j);
            crate::slots::lemma_off_within(s0, s2, q, j);
        }
        last
    }

    /// Takes `data` out of the tree, where the tree holds it. A node with
    /// one child gives its slot to the subtree of that child; a node with
    /// two children takes the value that comes before it in order, whose
    /// slot goes to its left subtree.
    pub fn remove(&mut self, data: T)
        requires
            old(self).wf(),
        ensures
            final(self).wf(),
            final(self).height == old(self).height,
            final(self).shape() == without(old(self).shape(), data),
            forall|v: T| #[trigger] final(self)@.contains(v) <==> old(self)@.contains(v) && v != data,
            old(self)@.contains(data) ==> taken(old(self)@, final(self)@, data),
            !old(self)@.contains(data) ==> final(self).root@ == old(self).root@,
    {
        let ghost s0 = self.root@;
        proof {
            lemma_strict_is_sorted(self@);
            lemma_lookup(s0, data, 0);
            lemma_capacity_bound(self.height as nat);
        }
        match find_slot(&self.root, data) {
            None => {
                proof {
                    lemma_without_nothing(self.shape(), data);
                }
            },
            Some(at) => {
                let ghost i = at as int;
                let l = left_child(at);
                let r = right_child(at);
                proof {
                    lemma_clean_everywhere(s0, i);
                    lemma_clean_children(s0, i);
                    lemma_tree_unfold(s0, i);
                    lemma_children_under(i);
                    crate::index::lemma_not_under_child(i);
                    crate::index::lemma_children_apart(i);
                    assert(up(left(i)) == i && up(right(i)) == i);
                    assert(sibling(left(i)) == right(i) && sibling(right(i)) == left(i));
                }
                let has_left = slot(&self.root, l).is_some();
                let has_right = slot(&self.root, r).is_some();
                if has_left && has_right {
                    let before = self.pop_last(l);
                    let ghost s1 = self.root@;
                    self.root.set(at, Some(before));
                    proof {
                        let s2 = self.root@;
                        crate::slots::lemma_off_within(s0, s1, left(i), i);
                        crate::slots::lemma_update_agree_off(s1, i, Some(before), i);
                        crate::slots::lemma_agree_off_trans(s0, s1, s2, i);
                        crate::removal::lemma_off_apart(s0, s1, left(i), left(i), right(i));
                        crate::slots::lemma_update_agree_on(s1, i, Some(before), left(i));
                        crate::slots::lemma_update_agree_on(s1, i, Some(before), right(i));
                        crate::slots::lemma_agree_on_trans(s0, s1, s2, right(i));
                        crate::slots::lemma_tree_agree(s0, s2, right(i));
                        crate::slots::lemma_tree_agree(s1, s2, left(i));
                        crate::slots::lemma_agree_transfers(s0, s2, right(i));
                        crate::slots::lemma_agree_transfers(s1, s2, left(i));
                        crate::slots::lemma_clean_from_children(s2, i);
                        lemma_tree_unfold(s2, i);
                        let a0 = tree_of(s0, left(i)).in_order();
                        let a1 = tree_of(s2, left(i)).in_order();
                        let b = tree_of(s0, right(i)).in_order();
                        let whole = tree_of(s0, i).in_order();
                        let less = tree_of(s2, i).in_order();
                        assert(whole[a0.len() as int] == data);
                        assert(less =~= whole.remove(a0.len() as int));
                        assert(taken_at(whole, less, data, a0.len() as int));
                    }
                } else if has_left {
                    self.root.set(at, None);
                    let ghost s1 = self.root@;
                    proof {
                        self.lemma_emptied(s0, i);
                    }
                    self.shift_up(l);
                    proof {
                        let s2 = self.root@;
                        crate::slots::lemma_update_agree_off(s0, i, None, i);
                        crate::slots::lemma_agree_off_trans(s0, s1, s2, i);
                        let whole = tree_of(s0, i).in_order();
                        let less = tree_of(s2, i).in_order();
                        let a0 = tree_of(s0, left(i)).in_order();
                        assert(tree_of(s0, right(i)).in_order() =~= Seq::<T>::empty());
                        assert(whole[a0.len() as int] == data);
                        assert(less =~= whole.remove(a0.len() as int));
                        assert(taken_at(whole, less, data, a0.len() as int));
                    }
                } else if has_right {
                    self.root.set(at, None);
                    let ghost s1 = self.root@;
                    proof {
                        self.lemma_emptied(s0, i);
                    }
                    self.shift_up(r);
                    proof {
                        let s2 = self.root@;
                        crate::slots::lemma_update_agree_off(s0, i, None, i);
                        crate::slots::lemma_agree_off_trans(s0, s1, s2, i);
                        let whole = tree_of(s0, i).in_order();
                        let less = tree_of(s2, i).in_order();
                        assert(tree_of(s0, left(i)).in_order() =~= Seq::<T>::empty());
                        assert(whole[0] == data);
                        assert(less =~= whole.remove(0));
                        assert(taken_at(whole, less, data, 0));
                    }
                } else {
                    self.root.set(at, None);
                    proof {
                        let s1 = self.root@;
                        self.lemma_emptied(s0, i);
                        lemma_empty_from_children(s1, i);
                        lemma_empty_is_leaf(s1, i);
                        crate::slots::lemma_update_agree_off(s0, i, None, i);
                        let whole = tree_of(s0, i).in_order();
                        let less = tree_of(s1, i).in_order();
                        assert(tree_of(s0, left(i)).in_order() =~= Seq::<T>::empty());
                        assert(tree_of(s0, right(i)).in_order() =~= Seq::<T>::empty());
                        assert(whole[0] == data);
                        assert(less =~= whole.remove(0));
                        assert(taken_at(whole, less, data, 0));
                    }
                }
                proof {
                    let s9 = self.root@;
                    crate::slots::lemma_all_under_root(i);
                    crate::slots::lemma_tree_stored(s0, left(i));
                    crate::slots::lemma_tree_stored(s0, right(i));
                    lemma_without_lift(s0, s9, data, 0, i);
                    lemma_taken_lift(s0, s9, data, 0, i);
                    lemma_taken_strict(old(self)@, self@, data);
                    lemma_clean_patch(s0, s9, i);
                }
            },
        }
    }

    /// After slot `i` of the slots `before` has been emptied, the subtrees
    /// of its children are as they were: clean, and empty where the child
    /// slot was.
    proof fn lemma_emptied(&self, before: Seq<Option<T>>, i: int)
        requires
            0 <= i < before.len(),
            self.root@ == before.update(i, None),
            clean(before, left(i)),
            clean(before, right(i)),
        ensures
            cell_at(self.root@, i) is None,
            clean(self.root@, left(i)),
            clean(self.root@, right(i)),
            tree_of(self.root@, left(i)) == tree_of(before, left(i)),
            tree_of(self.root@, right(i)) == tree_of(before, right(i)),
            cell_at(before, left(i)) is None ==> empty_below(self.root@, left(i)),
            cell_at(before, right(i)) is None ==> empty_below(self.root@, right(i)),
    {
        crate::index::lemma_not_under_child(i);
        crate::slots::lemma_update_agree_on(before, i, None, left(i));
        crate::slots::lemma_update_agree_on(before, i, None, right(i));
        crate::slots::lemma_agree_transfers(before, self.root@, left(i));
        crate::slots::lemma_agree_transfers(before, self.root@, right(i));
        crate::slots::lemma_tree_agree(before, self.root@, left(i));
        crate::slots::lemma_tree_agree(before, self.root@, right(i));
        if cell_at(before, left(i)) is None {
            lemma_clean_empty(before, left(i));
        }
        if cell_at(before, right(i)) is None {
            lemma_clean_empty(before, right(i));
        }
    }
}

} // verus!
