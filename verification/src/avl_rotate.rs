use vstd::prelude::*;
use crate::avl_tree::{counter_above, grown, AVLTree};
use crate::balance::{
    above, balanced, counted, keys, lemma_double_rotation, lemma_join, lemma_join_children,
    lemma_rotated_counted, lemma_rotated_keys, lemma_rotated_shape, lemma_rotation_is_rotated,
    lemma_single_rotation, lemma_stored_is_height, mended, restored, rotated, rotation_of, stored,
};
use crate::index::{
    left, left_child, lemma_capacity_bound, lemma_capacity_monotonic, lemma_index_bound,
    lemma_level_of_child, level, right, right_child, side, Direction, MAX_HEIGHT,
};
use crate::moves::{lemma_rotate_end, lemma_rotate_mid, lemma_rotate_writes};
use crate::order::Ordered;
use crate::slots::{agree_off, cell_at, clean, lemma_height_fits, lemma_tree_unfold, tree_of};

verus! {

impl<T: Ordered> AVLTree<T> {
    /// Rotates the subtree rooted at `idx` in the direction `dir`: the child
    /// opposite to `dir` takes the place of `idx`, and every other node of
    /// the subtree moves to the slot that the new shape gives it. An empty
    /// slot `idx` is left as it is.
    pub fn rotate(&mut self, idx: usize, dir: Direction)
        requires
            old(self).layout(),
            clean(old(self).cells(), idx as int),
            cell_at(old(self).cells(), idx as int) is Some ==> level(idx as int) + 2 + tree_of(
                old(self).cells(),
                dir.near(idx as int),
            ).height() <= MAX_HEIGHT,
        ensures
            final(self).layout(),
            cell_at(old(self).cells(), idx as int) is None ==> final(self).cells() == old(
                self,
            ).cells() && final(self).height == old(self).height,
            cell_at(old(self).cells(), idx as int) is Some ==> rotation_of(
                old(self).cells(),
                final(self).cells(),
                idx as int,
                dir,
            ) && final(self).height == grown(
                old(self).height,
                level(idx as int) + 2 + tree_of(old(self).cells(), dir.near(idx as int)).height(),
            ),
    {
        let ghost s0 = self.cells();
        let ghost p = idx as int;
        match self.cell(idx) {
            None => {},
            Some((x, _)) => {
                proof {
                    lemma_tree_unfold(s0, p);
                    lemma_level_of_child(p);
                    lemma_index_bound(p);
                    crate::slots::lemma_clean_children(s0, p);
                    lemma_capacity_bound(self.height as nat);
                }
                let t = dir.towards(idx);
                let a = dir.against(idx);
                proof {
                    lemma_level_of_child(t as int);
                    lemma_level_of_child(a as int);
                    lemma_index_bound(t as int);
                    lemma_index_bound(a as int);
                }
                let tt = dir.towards(t);
                let tf = dir.against(t);
                let an = dir.towards(a);
                let af = dir.against(a);
                self.shift_down(t, dir);
                let ghost s1 = self.cells();
                proof {
                    lemma_rotate_mid(s0, s1, p, dir);
                    lemma_height_fits(s0, an as int, old(self).height as nat);
                    lemma_capacity_monotonic(old(self).height as nat, self.height as nat);
                }
                self.relocate(an, tf);
                let ghost s2 = self.cells();
                proof {
                    lemma_capacity_monotonic(old(self).height as nat, self.height as nat);
                }
                self.reach(t);
                let ghost s2p = self.cells();
                let count = counter_above(self.counter(tt), self.counter(tf));
                let promoted = self.cell(a);
                self.put(t, x, count);
                match promoted {
                    Some((r, _)) => {
                        let top = counter_above(count, self.counter(af));
                        self.put(idx, r, top);
                        self.vacate(a);
                        proof {
                            crate::slots::lemma_same_but_3(
                                s2p,
                                t as int,
                                Some((x, count)),
                                p,
                                Some((r, top)),
                                a as int,
                                None,
                            );
                        }
                    },
                    None => {
                        self.vacate(idx);
                        proof {
                            crate::slots::lemma_same_but_2(
                                s2p,
                                t as int,
                                Some((x, count)),
                                p,
                                None,
                                a as int,
                            );
                        }
                    },
                }
                let ghost s3 = self.cells();
                proof {
                    lemma_rotate_writes(s0, s1, s2, s2p, s3, p, dir, (x, count));
                }
                self.shift_up(af);
                proof {
                    let s4 = self.cells();
                    lemma_rotate_end(s0, s3, s4, p, dir);
                    assert(count == above(
                        stored(tree_of(s0, dir.near(p))),
                        stored(tree_of(s0, dir.near(dir.far(p)))),
                    ));
                    assert(tree_of(s4, dir.far(p)) == tree_of(s0, dir.far(dir.far(p))));
                    assert(agree_off(s0, s4, p));
                    assert(clean(s4, dir.near(p)));
                    assert(clean(s4, dir.far(p)));
                    assert(cell_at(s4, p) == (match cell_at(s0, dir.far(p)) {
                        Some(r) => Some((r.0, above(count, stored(tree_of(s0, dir.far(dir.far(p))))))),
                        None => None,
                    }));
                    assert(self.height == grown(
                        old(self).height,
                        level(p) + 2 + tree_of(s0, dir.near(p)).height(),
                    ));
                }
            },
        }
    }

    /// Rotates the subtree rooted at `idx` to the left.
    pub fn rotate_left(&mut self, idx: usize)
        requires
            old(self).layout(),
            clean(old(self).cells(), idx as int),
            cell_at(old(self).cells(), idx as int) is Some ==> level(idx as int) + 2 + tree_of(
                old(self).cells(),
                left(idx as int),
            ).height() <= MAX_HEIGHT,
        ensures
            final(self).layout(),
            cell_at(old(self).cells(), idx as int) is None ==> final(self).cells() == old(
                self,
            ).cells() && final(self).height == old(self).height,
            cell_at(old(self).cells(), idx as int) is Some ==> rotation_of(
                old(self).cells(),
                final(self).cells(),
                idx as int,
                Direction::LEFT,
            ) && final(self).height == grown(
                old(self).height,
                level(idx as int) + 2 + tree_of(old(self).cells(), left(idx as int)).height(),
            ),
    {
        self.rotate(idx, Direction::LEFT)
    }

    /// Rotates the subtree rooted at `idx` to the right.
    pub fn rotate_right(&mut self, idx: usize)
        requires
            old(self).layout(),
            clean(old(self).cells(), idx as int),
            cell_at(old(self).cells(), idx as int) is Some ==> level(idx as int) + 2 + tree_of(
                old(self).cells(),
                right(idx as int),
            ).height() <= MAX_HEIGHT,
        ensures
            final(self).layout(),
            cell_at(old(self).cells(), idx as int) is None ==> final(self).cells() == old(
                self,
            ).cells() && final(self).height == old(self).height,
            cell_at(old(self).cells(), idx as int) is Some ==> rotation_of(
                old(self).cells(),
                final(self).cells(),
                idx as int,
                Direction::RIGHT,
            ) && final(self).height == grown(
                old(self).height,
                level(idx as int) + 2 + tree_of(old(self).cells(), right(idx as int)).height(),
            ),
    {
        self.rotate(idx, Direction::RIGHT)
    }

    /// Rotates the subtree rooted at `idx`, whose side opposite to `dir` is
    /// two levels higher than the other, so that it is balanced again: once
    /// where the outer part of the higher side is no lower than its inner
    /// part, else twice.
    pub fn restore(&mut self, idx: usize, dir: Direction)
        requires
            old(self).layout(),
            cell_at(old(self).cells(), idx as int) is Some,
            clean(old(self).cells(), idx as int),
            counted(tree_of(old(self).cells(), left(idx as int))),
            counted(tree_of(old(self).cells(), right(idx as int))),
            balanced(tree_of(old(self).cells(), left(idx as int))),
            balanced(tree_of(old(self).cells(), right(idx as int))),
            tree_of(old(self).cells(), dir.far(idx as int)).height() == tree_of(
                old(self).cells(),
                dir.near(idx as int),
            ).height() + 2,
        ensures
            final(self).layout(),
            final(self).height == old(self).height,
            cell_at(final(self).cells(), idx as int) is Some,
            clean(final(self).cells(), idx as int),
            agree_off(old(self).cells(), final(self).cells(), idx as int),
            tree_of(final(self).cells(), idx as int) == restored(
                tree_of(old(self).cells(), idx as int),
                dir,
            ),
            keys(tree_of(final(self).cells(), idx as int)) == keys(
                tree_of(old(self).cells(), idx as int),
            ),
            counted(tree_of(final(self).cells(), idx as int)),
            balanced(tree_of(final(self).cells(), idx as int)),
            tree_of(final(self).cells(), idx as int).height() == tree_of(
                old(self).cells(),
                idx as int,
            ).height() || tree_of(final(self).cells(), idx as int).height() + 1 == tree_of(
                old(self).cells(),
                idx as int,
            ).height(),
    {
        let ghost s0 = self.cells();
        let ghost p = idx as int;
        let ghost tree = tree_of(s0, p);
        proof {
            lemma_capacity_bound(self.height as nat);
            lemma_height_fits(s0, p, self.height as nat);
            lemma_level_of_child(p);
            crate::moves::lemma_tree_unfold_dir(s0, p, dir);
            lemma_join(
                dir,
                tree_of(s0, dir.near(p)),
                cell_at(s0, p).unwrap(),
                tree_of(s0, dir.far(p)),
            );
            crate::slots::lemma_clean_children(s0, p);
        }
        let heavy = dir.against(idx);
        let ghost h = heavy as int;
        proof {
            lemma_height_fits(s0, h, self.height as nat);
            lemma_level_of_child(h);
            crate::moves::lemma_tree_unfold_dir(s0, h, dir);
            lemma_join(
                dir,
                tree_of(s0, dir.near(h)),
                cell_at(s0, h).unwrap(),
                tree_of(s0, dir.far(h)),
            );
            lemma_stored_is_height(tree_of(s0, dir.near(h)));
            lemma_stored_is_height(tree_of(s0, dir.far(h)));
            crate::slots::lemma_tree_stored(s0, dir.near(h));
            crate::slots::lemma_tree_stored(s0, dir.far(h));
        }
        let inner = dir.towards(heavy);
        let outer = dir.against(heavy);
        if self.counter(inner) > self.counter(outer) {
            proof {
                assert(dir.flip().flip() == dir);
                assert(dir.flip().near(h) == dir.far(h));
                assert(dir.flip().far(h) == dir.near(h));
                crate::moves::lemma_tree_unfold_dir(s0, dir.near(h), dir);
            }
            self.rotate(heavy, dir.opposite());
            let ghost s1 = self.cells();
            proof {
                lemma_rotation_is_rotated(s0, s1, h, dir.flip());
                crate::moves::lemma_hold_beside(s0, s1, p, dir);
                crate::moves::lemma_tree_unfold_dir(s1, p, dir);
                let between = tree_of(s1, p);
                lemma_double_rotation(tree, between, dir);
                lemma_rotated_keys(tree_of(s0, h), dir.flip());
                lemma_rotated_shape(tree_of(s0, h), dir.flip());
                lemma_join_children(tree_of(s0, dir.near(h)), dir);
                lemma_join(
                    dir,
                    tree_of(s0, dir.near(h)).child(dir),
                    tree_of(s0, dir.near(h))->1,
                    tree_of(s0, dir.near(h)).child(dir.flip()),
                );
                lemma_rotated_counted(tree_of(s0, h), dir.flip());
                lemma_join(
                    dir,
                    tree_of(s0, dir.near(p)),
                    cell_at(s0, p).unwrap(),
                    rotated(tree_of(s0, h), dir.flip()),
                );
                assert(keys(between) == keys(tree));
                lemma_join_children(between, dir);
                lemma_join_children(between.child(dir.flip()), dir);
                lemma_join(
                    dir,
                    between.child(dir.flip()).child(dir),
                    between.child(dir.flip())->1,
                    between.child(dir.flip()).child(dir.flip()),
                );
                lemma_rotated_counted(between, dir);
                lemma_rotated_keys(between, dir);
                lemma_height_fits(s1, p, self.height as nat);
            }
            self.rotate(idx, dir);
            proof {
                lemma_rotation_is_rotated(s1, self.cells(), p, dir);
                crate::moves::lemma_children_under(p);
                crate::slots::lemma_off_within(s0, s1, h, p);
                crate::slots::lemma_agree_off_trans(s0, s1, self.cells(), p);
            }
        } else {
            proof {
                lemma_single_rotation(tree, dir);
                lemma_rotated_counted(tree, dir);
                lemma_rotated_keys(tree, dir);
            }
            self.rotate(idx, dir);
            proof {
                lemma_rotation_is_rotated(s0, self.cells(), p, dir);
            }
        }
    }

    /// Gives slot `idx` the counter that its subtrees ask for and, where one
    /// of them is two levels higher than the other, rotates the subtree
    /// rooted at `idx` so that it is balanced again.
    pub fn rebalance(&mut self, idx: usize)
        requires
            old(self).layout(),
            cell_at(old(self).cells(), idx as int) is Some,
            clean(old(self).cells(), idx as int),
            counted(tree_of(old(self).cells(), left(idx as int))),
            counted(tree_of(old(self).cells(), right(idx as int))),
            balanced(tree_of(old(self).cells(), left(idx as int))),
            balanced(tree_of(old(self).cells(), right(idx as int))),
            tree_of(old(self).cells(), left(idx as int)).height() <= tree_of(
                old(self).cells(),
                right(idx as int),
            ).height() + 2,
            tree_of(old(self).cells(), right(idx as int)).height() <= tree_of(
                old(self).cells(),
                left(idx as int),
            ).height() + 2,
        ensures
            final(self).layout(),
            final(self).height == old(self).height,
            cell_at(final(self).cells(), idx as int) is Some,
            clean(final(self).cells(), idx as int),
            agree_off(old(self).cells(), final(self).cells(), idx as int),
            tree_of(final(self).cells(), idx as int) == mended(
                tree_of(old(self).cells(), idx as int),
            ),
            keys(tree_of(final(self).cells(), idx as int)) == keys(
                tree_of(old(self).cells(), idx as int),
            ),
            counted(tree_of(final(self).cells(), idx as int)),
            balanced(tree_of(final(self).cells(), idx as int)),
            tree_of(final(self).cells(), idx as int).height() == tree_of(
                old(self).cells(),
                idx as int,
            ).height() || tree_of(final(self).cells(), idx as int).height() + 1 == tree_of(
                old(self).cells(),
                idx as int,
            ).height(),
            tree_of(old(self).cells(), left(idx as int)).height() <= tree_of(
                old(self).cells(),
                right(idx as int),
            ).height() + 1 && tree_of(old(self).cells(), right(idx as int)).height() <= tree_of(
                old(self).cells(),
                left(idx as int),
            ).height() + 1 ==> tree_of(final(self).cells(), idx as int).height() == tree_of(
                old(self).cells(),
                idx as int,
            ).height(),
    {
        let ghost s0 = self.cells();
        let ghost p = idx as int;
        proof {
            lemma_capacity_bound(self.height as nat);
            lemma_height_fits(s0, p, self.height as nat);
            lemma_tree_unfold(s0, p);
            lemma_stored_is_height(tree_of(s0, left(p)));
            lemma_stored_is_height(tree_of(s0, right(p)));
            crate::slots::lemma_tree_stored(s0, left(p));
            crate::slots::lemma_tree_stored(s0, right(p));
        }
        match self.cell(idx) {
            None => {},
            Some((v, _)) => {
                let l = left_child(idx);
                let r = right_child(idx);
                let hl = self.counter(l);
                let hr = self.counter(r);
                if hl > hr + 1 {
                    self.restore(idx, Direction::RIGHT);
                } else if hr > hl + 1 {
                    self.restore(idx, Direction::LEFT);
                } else {
                    let count = counter_above(hl, hr);
                    self.put(idx, v, count);
                    proof {
                        let s1 = self.cells();
                        crate::moves::lemma_children_under(p);
                        crate::index::lemma_not_under_child(p);
                        crate::slots::lemma_clean_children(s0, p);
                        crate::slots::lemma_update_agree_on(s0, p, Some((v, count)), left(p));
                        crate::slots::lemma_update_agree_on(s0, p, Some((v, count)), right(p));
                        crate::slots::lemma_tree_agree(s0, s1, left(p));
                        crate::slots::lemma_tree_agree(s0, s1, right(p));
                        crate::slots::lemma_agree_transfers(s0, s1, left(p));
                        crate::slots::lemma_agree_transfers(s0, s1, right(p));
                        crate::slots::lemma_clean_from_children(s1, p);
                        crate::slots::lemma_update_agree_off(s0, p, Some((v, count)), p);
                        lemma_tree_unfold(s1, p);
                    }
                }
            },
        }
    }
}

} // verus!
