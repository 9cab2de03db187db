use vstd::prelude::*;
use crate::avl_tree::{depth_needed, grown, AVLTree};
use crate::index::{
    apart, in_subtree, left, left_child, lemma_capacity_bound, lemma_index_bound,
    lemma_level_capacity, lemma_level_of_child, level, parent, right, right_child, sibling, side,
    up, Direction, MAX_HEIGHT,
};
use crate::moves::{
    lemma_relocate_end, lemma_relocate_mid, lemma_relocate_start, lemma_shift_down_end,
    lemma_shift_down_mid, lemma_shift_up_end, lemma_shift_up_mid, lemma_shift_up_nothing,
    lemma_shift_up_start,
};
use crate::order::Ordered;
use crate::slots::{
    agree_off, agree_off2, cell_at, clean, empty_below, lemma_clean_empty, lemma_empty_children,
    lemma_empty_from_children, lemma_empty_is_leaf, lemma_height_fits,
    lemma_occupied_within_height, lemma_off_widen2, lemma_same_cells, lemma_same_cells_refl,
    lemma_same_cells_trans, lemma_tree_unfold, same_cells, tree_of,
};
use crate::transfer::{
    free_under, image, image_of, is_under, law_moved_tree, lemma_image_under, lemma_move_pending,
    lemma_move_step, lemma_moved_all, lemma_moved_none, lemma_moved_nothing, level_of, makes_way,
    moved, moved_but,
};

verus! {

/// Whether `index` is among `list`.
pub fn listed(list: &Vec<usize>, index: usize) -> (b: bool)
    ensures
        b == list@.contains(index),
{
    let mut n: usize = 0;
    while n < list.len()
        invariant
            n <= list.len(),
            forall|k: int| 0 <= k < n ==> list@[k] != index,
        decreases list.len() - n,
    {
        if list[n] == index {
            return true;
        }
        n = n + 1;
    }
    false
}

impl<T: Ordered> AVLTree<T> {
    /// Adds levels until slot `index` exists.
    pub fn reach(&mut self, index: usize)
        requires
            old(self).layout(),
            level(index as int) < MAX_HEIGHT,
        ensures
            final(self).layout(),
            final(self).height == grown(old(self).height, level(index as int) + 1),
            final(self).nodes >= old(self).nodes,
            index < final(self).nodes,
            same_cells(old(self).cells(), final(self).cells()),
    {
        proof {
            lemma_same_cells_refl(self.cells());
        }
        while index >= self.root.len()
            invariant
                self.layout(),
                self.height >= old(self).height,
                self.height == old(self).height || self.height <= level(index as int) + 1,
                self.nodes >= old(self).nodes,
                level(index as int) < MAX_HEIGHT,
                same_cells(old(self).cells(), self.cells()),
            decreases MAX_HEIGHT - self.height,
        {
            proof {
                lemma_level_capacity(index as int, self.height as nat);
            }
            let ghost before = self.cells();
            self.increase_levels(1);
            proof {
                lemma_same_cells_trans(old(self).cells(), before, self.cells());
            }
        }
        proof {
            lemma_level_capacity(index as int, self.height as nat);
        }
    }

    /// Moves the subtree rooted at `from` to the empty place rooted at `to`,
    /// where the two places share no slot. Values and counters keep their
    /// positions relative to the root of the subtree.
    pub fn relocate(&mut self, from: usize, to: usize)
        requires
            old(self).layout(),
            apart(from as int, to as int),
            clean(old(self).cells(), from as int),
            empty_below(old(self).cells(), to as int),
            level(to as int) + tree_of(old(self).cells(), from as int).height() <= MAX_HEIGHT,
        ensures
            final(self).layout(),
            final(self).height == grown(
                old(self).height,
                depth_needed(to as int, tree_of(old(self).cells(), from as int)),
            ),
            tree_of(final(self).cells(), to as int) == tree_of(old(self).cells(), from as int),
            clean(final(self).cells(), to as int),
            empty_below(final(self).cells(), from as int),
            agree_off2(old(self).cells(), final(self).cells(), from as int, to as int),
        decreases tree_of(old(self).cells(), from as int).height(),
    {
        let ghost s0 = self.cells();
        let ghost f = from as int;
        let ghost t = to as int;
        match self.cell(from) {
            None => {
                proof {
                    lemma_clean_empty(s0, f);
                    lemma_empty_is_leaf(s0, f);
                    lemma_empty_is_leaf(s0, t);
                    lemma_same_cells_refl(s0);
                    lemma_same_cells(s0, s0, f);
                    crate::slots::lemma_off_widen2(s0, s0, f, t);
                }
            },
            Some((v, c)) => {
                proof {
                    lemma_tree_unfold(s0, f);
                    lemma_level_of_child(t);
                    crate::index::lemma_index_bound(t);
                    lemma_capacity_bound(self.height as nat);
                }
                self.reach(to);
                let ghost s1 = self.cells();
                self.put(to, v, c);
                self.vacate(from);
                let ghost s3 = self.cells();
                let fl = left_child(from);
                let fr = right_child(from);
                let tl = left_child(to);
                let tr = right_child(to);
                proof {
                    lemma_relocate_start(s0, s1, s3, f, t, (v, c));
                }
                self.relocate(fl, tl);
                let ghost s4 = self.cells();
                proof {
                    lemma_relocate_mid(s3, s4, f, t);
                }
                self.relocate(fr, tr);
                proof {
                    lemma_relocate_end(s0, s3, s4, self.cells(), f, t, (v, c));
                }
            },
        }
    }

    /// Moves the subtree rooted at `from` one step down, to the child of
    /// `from` on the side `dir`. Slot `from` and the place of its other child
    /// are empty afterwards.
    pub fn shift_down(&mut self, from: usize, dir: Direction)
        requires
            old(self).layout(),
            clean(old(self).cells(), from as int),
            level(from as int) + 1 + tree_of(old(self).cells(), from as int).height()
                <= MAX_HEIGHT,
        ensures
            final(self).layout(),
            final(self).height == grown(
                old(self).height,
                depth_needed(dir.near(from as int), tree_of(old(self).cells(), from as int)),
            ),
            tree_of(final(self).cells(), dir.near(from as int)) == tree_of(
                old(self).cells(),
                from as int,
            ),
            clean(final(self).cells(), dir.near(from as int)),
            cell_at(final(self).cells(), from as int) is None,
            empty_below(final(self).cells(), dir.far(from as int)),
            agree_off(old(self).cells(), final(self).cells(), from as int),
        decreases tree_of(old(self).cells(), from as int).height(),
    {
        let ghost s0 = self.cells();
        let ghost f = from as int;
        match self.cell(from) {
            None => {
                proof {
                    lemma_clean_empty(s0, f);
                    lemma_empty_children(s0, f);
                    lemma_empty_is_leaf(s0, f);
                    lemma_empty_is_leaf(s0, dir.near(f));
                    lemma_same_cells_refl(s0);
                    lemma_same_cells(s0, s0, f);
                }
            },
            Some((v, c)) => {
                proof {
                    lemma_tree_unfold(s0, f);
                    lemma_level_of_child(f);
                    lemma_index_bound(f);
                    crate::slots::lemma_clean_children(s0, f);
                }
                let to = dir.towards(from);
                let other = dir.against(from);
                proof {
                    lemma_level_of_child(to as int);
                    lemma_index_bound(to as int);
                }
                let beside = dir.against(to);
                self.shift_down(to, dir);
                let ghost s1 = self.cells();
                proof {
                    lemma_shift_down_mid(s0, s1, f, dir);
                }
                self.relocate(other, beside);
                let ghost s2 = self.cells();
                self.reach(to);
                let ghost s2p = self.cells();
                self.put(to, v, c);
                self.vacate(from);
                proof {
                    lemma_shift_down_end(s0, s1, s2, s2p, self.cells(), f, dir, (v, c));
                }
            },
        }
    }

    /// Moves the subtree rooted at `from` one step up, to the parent of
    /// `from`, which is empty, as is all under the other child of that parent.
    pub fn shift_up(&mut self, from: usize)
        requires
            old(self).layout(),
            from > 0,
            clean(old(self).cells(), from as int),
            cell_at(old(self).cells(), up(from as int)) is None,
            empty_below(old(self).cells(), sibling(from as int)),
        ensures
            final(self).layout(),
            final(self).height == old(self).height,
            tree_of(final(self).cells(), up(from as int)) == tree_of(
                old(self).cells(),
                from as int,
            ),
            clean(final(self).cells(), up(from as int)),
            agree_off(old(self).cells(), final(self).cells(), up(from as int)),
        decreases tree_of(old(self).cells(), from as int).height(),
    {
        let ghost s0 = self.cells();
        let ghost f = from as int;
        let dir = side(from);
        match self.cell(from) {
            None => {
                proof {
                    lemma_shift_up_nothing(s0, f, dir);
                }
            },
            Some((v, c)) => {
                proof {
                    lemma_tree_unfold(s0, f);
                    lemma_capacity_bound(self.height as nat);
                    lemma_height_fits(s0, f, self.height as nat);
                    lemma_level_of_child(up(f));
                    lemma_level_of_child(f);
                }
                let to = parent(from);
                let near = dir.towards(from);
                let far = dir.against(from);
                let beside = dir.against(to);
                self.put(to, v, c);
                self.vacate(from);
                let ghost s1 = self.cells();
                proof {
                    lemma_shift_up_start(s0, s1, f, dir, (v, c));
                }
                self.relocate(far, beside);
                let ghost s2 = self.cells();
                proof {
                    lemma_shift_up_mid(s1, s2, f, dir);
                }
                self.shift_up(near);
                proof {
                    lemma_shift_up_end(s0, s1, s2, self.cells(), f, dir, (v, c));
                }
            },
        }
    }

    /// Carries slot `i` to its place under `to` if it is an occupied slot of
    /// the subtree rooted at `from`: one step of a move that takes the slots
    /// from the last to the first when `to` lies behind `from`, from the
    /// first to the last otherwise.
    fn carry(
        &mut self,
        i: usize,
        from: usize,
        to: usize,
        Ghost(s0): Ghost<Seq<Option<(T, u32)>>>,
        Ghost(lo): Ghost<int>,
        Ghost(hi): Ghost<int>,
    )
        requires
            old(self).layout(),
            from <= i < old(self).nodes,
            from != to,
            clean(s0, from as int),
            level(to as int) + tree_of(s0, from as int).height() <= old(self).height,
            moved_but(s0, old(self).cells(), from as int, to as int, lo, hi),
            to > from ==> lo == from && hi == i,
            to < from ==> lo == i && hi >= s0.len() - 1,
        ensures
            final(self).layout(),
            final(self).height == old(self).height,
            to > from ==> moved_but(s0, final(self).cells(), from as int, to as int, lo, i - 1),
            to < from ==> moved_but(s0, final(self).cells(), from as int, to as int, i + 1, hi),
    {
        let ghost cur = self.cells();
        let ghost f = from as int;
        let ghost t = to as int;
        proof {
            lemma_move_pending(s0, cur, f, t, lo, hi, i as int);
        }
        if is_under(i, from) {
            match self.cell(i) {
                Some((v, c)) => {
                    proof {
                        lemma_occupied_within_height(s0, f, i as int);
                        lemma_image_under(i as int, f, t);
                        lemma_level_capacity(image(i as int, f, t), self.height as nat);
                    }
                    let dest: usize = image_of(i, from, to);
                    self.put(dest, v, c);
                    self.vacate(i);
                },
                None => {},
            }
        }
        proof {
            lemma_move_step(s0, cur, self.cells(), f, t, lo, hi, i as int);
        }
    }

    /// Moves the subtree rooted at `from` so that it is rooted at `to`: every
    /// node goes, with its counter, to the slot that lies under `to` where
    /// its own lies under `from`; a slot of the subtree that no node comes to
    /// is left empty; every other slot stays as it is. The slots that the
    /// nodes go to are empty or are slots of the subtree themselves. Levels
    /// are added where the subtree needs them.
    pub fn move_nodes(&mut self, from: usize, to: usize)
        requires
            old(self).layout(),
            clean(old(self).cells(), from as int),
            depth_needed(to as int, tree_of(old(self).cells(), from as int)) <= MAX_HEIGHT,
            makes_way(old(self).cells(), from as int, to as int),
        ensures
            final(self).layout(),
            final(self).height == grown(
                old(self).height,
                depth_needed(to as int, tree_of(old(self).cells(), from as int)),
            ),
            forall|x: int|
                cell_at(final(self).cells(), x) == moved(
                    old(self).cells(),
                    from as int,
                    to as int,
                    x,
                ),
            free_under(old(self).cells(), from as int, to as int) ==> tree_of(
                final(self).cells(),
                to as int,
            ) == tree_of(old(self).cells(), from as int),
    {
        let ghost s0 = self.cells();
        self.move_slots(from, to);
        proof {
            if free_under(s0, from as int, to as int) {
                assert(in_subtree(to as int, to as int));
                law_moved_tree(s0, self.cells(), from as int, to as int, to as int);
            }
        }
    }

    /// Moves the occupied slots of the subtree rooted at `from` to their
    /// places under `to`, one after the other, in an order in which no slot
    /// is written before what it held has moved on.
    fn move_slots(&mut self, from: usize, to: usize)
        requires
            old(self).layout(),
            clean(old(self).cells(), from as int),
            depth_needed(to as int, tree_of(old(self).cells(), from as int)) <= MAX_HEIGHT,
        ensures
            final(self).layout(),
            final(self).height == grown(
                old(self).height,
                depth_needed(to as int, tree_of(old(self).cells(), from as int)),
            ),
            forall|x: int|
                cell_at(final(self).cells(), x) == moved(
                    old(self).cells(),
                    from as int,
                    to as int,
                    x,
                ),
    {
        let ghost s0 = self.cells();
        let ghost f = from as int;
        let ghost t = to as int;
        proof {
            lemma_capacity_bound(self.height as nat);
            self.lemma_values(f);
            crate::balance::lemma_strip(tree_of(s0, f));
            lemma_height_fits(s0, f, self.height as nat);
        }
        let len: usize = self.root.len();
        let tall: usize = crate::traverse::height_of(&self.root, from);
        if to == from || tall == 0 {
            proof {
                assert forall|x: int| cell_at(s0, x) == moved(s0, f, t, x) by {
                    lemma_moved_nothing(s0, f, t, x);
                }
            }
            return ;
        }
        let deep: usize = level_of(to);
        let need: u32 = (deep + tall) as u32;
        if need > self.height {
            self.increase_levels(need - self.height);
        }
        proof {
            reveal(same_cells);
            lemma_moved_none(s0, self.cells(), f, t, len - 1);
        }
        if to > from {
            let mut i: usize = len;
            while i > from
                invariant
                    self.layout(),
                    self.height == grown(old(self).height, need as nat),
                    from <= i <= len <= self.nodes,
                    from != to,
                    to > from,
                    s0.len() == len,
                    clean(s0, f),
                    f == from,
                    t == to,
                    level(t) + tree_of(s0, f).height() == need,
                    moved_but(s0, self.cells(), f, t, f, i - 1),
                decreases i,
            {
                i = i - 1;
                self.carry(i, from, to, Ghost(s0), Ghost(f), Ghost(i as int));
            }
            proof {
                assert forall|x: int| cell_at(self.cells(), x) == moved(s0, f, t, x) by {
                    lemma_moved_all(s0, self.cells(), f, t, f, i - 1, x);
                }
            }
        } else {
            let mut i: usize = from;
            while i < len
                invariant
                    self.layout(),
                    self.height == grown(old(self).height, need as nat),
                    from <= i <= len <= self.nodes,
                    from != to,
                    to < from,
                    s0.len() == len,
                    clean(s0, f),
                    f == from,
                    t == to,
                    level(t) + tree_of(s0, f).height() == need,
                    moved_but(s0, self.cells(), f, t, i as int, len - 1),
                decreases len - i,
            {
                self.carry(i, from, to, Ghost(s0), Ghost(i as int), Ghost(len - 1));
                i = i + 1;
            }
            proof {
                assert forall|x: int| cell_at(self.cells(), x) == moved(s0, f, t, x) by {
                    lemma_moved_all(s0, self.cells(), f, t, i as int, len - 1, x);
                }
            }
        }
    }

    /// Whether slot `node` has nothing left below it to move: its children
    /// lie outside the array, or each of them is empty or listed in
    /// `moved_to_indexes`, the slots that moved nodes have come to.
    pub fn node_is_leaf(&self, node: usize, moved_to_indexes: &Vec<usize>) -> (leaf: bool)
        requires
            self.layout(),
        ensures
            leaf == (right(node as int) >= self.root@.len() || ((cell_at(
                self.root@,
                left(node as int),
            ) is None || moved_to_indexes@.contains(left(node as int) as usize)) && (cell_at(
                self.root@,
                right(node as int),
            ) is None || moved_to_indexes@.contains(right(node as int) as usize)))),
    {
        proof {
            lemma_capacity_bound(self.height as nat);
        }
        let len: usize = self.root.len();
        if node >= len {
            return true;
        }
        let l: usize = left_child(node);
        let r: usize = right_child(node);
        if r >= len {
            return true;
        }
        (self.root[l].is_none() || listed(moved_to_indexes, l)) && (self.root[r].is_none()
            || listed(moved_to_indexes, r))
    }

    /// Empties every slot from `idx` down.
    pub fn clear_from(&mut self, idx: usize)
        requires
            old(self).layout(),
        ensures
            final(self).layout(),
            final(self).height == old(self).height,
            empty_below(final(self).cells(), idx as int),
            agree_off(old(self).cells(), final(self).cells(), idx as int),
        decreases
            (if idx < old(self).nodes {
                old(self).nodes - idx
            } else {
                0
            }),
    {
        let ghost s0 = self.cells();
        let ghost p = idx as int;
        proof {
            lemma_capacity_bound(self.height as nat);
        }
        if idx < self.root.len() {
            self.vacate(idx);
            let ghost s1 = self.cells();
            self.clear_from(left_child(idx));
            let ghost s2 = self.cells();
            self.clear_from(right_child(idx));
            proof {
                let s3 = self.cells();
                crate::moves::lemma_children_under(p);
                crate::index::lemma_children_apart(p);
                crate::index::lemma_not_under_child(p);
                crate::slots::lemma_update_agree_off(s0, p, None, p);
                crate::slots::lemma_off_within(s1, s2, left(p), p);
                crate::slots::lemma_off_within(s2, s3, right(p), p);
                crate::slots::lemma_agree_off_trans(s0, s1, s2, p);
                crate::slots::lemma_agree_off_trans(s0, s2, s3, p);
                crate::slots::lemma_agree_off_at(s1, s2, left(p), p);
                crate::slots::lemma_agree_off_at(s2, s3, right(p), p);
                crate::slots::lemma_off_gives_on(s2, s3, right(p), left(p));
                crate::slots::lemma_agree_transfers(s2, s3, left(p));
                lemma_empty_from_children(s3, p);
            }
        } else {
            proof {
                crate::slots::lemma_empty_outside(s0, p);
                lemma_same_cells_refl(s0);
                lemma_same_cells(s0, s0, p);
            }
        }
    }
}

} // verus!
