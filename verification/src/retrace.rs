use vstd::prelude::*;
use crate::balance::{balanced, counted, keys, lemma_join, mended, placed};
use crate::index::{
    in_subtree, left, lemma_children_apart, lemma_not_under_child, right, sibling, side_of, up,
    Direction,
};
use crate::moves::{lemma_children_under, lemma_tree_unfold_dir};
use crate::order::Ordered;
use crate::search::{
    grown_with, landing, lemma_placed_lift, lemma_sound_everywhere, on_path, sound, step,
};
use crate::shape::Tree;
use crate::slots::{
    agree_off, cell_at, clean, lemma_agree_off_at, lemma_agree_off_trans, lemma_agree_transfers,
    lemma_all_under_root, lemma_clean_empty, lemma_clean_from_children, lemma_empty_children,
    lemma_empty_is_leaf, lemma_off_gives_on, lemma_off_within, lemma_same_but_agree_off,
    lemma_same_but_agree_on, lemma_tree_agree, lemma_tree_unfold, same_but, tree_of,
};

verus! {

/// A search for a place for `x` that has come to slot `i` ends on an empty
/// slot that lies on its way.
pub proof fn lemma_landing_on_path<T: Ordered>(s: Seq<Option<(T, u32)>>, x: T, i: int)
    requires
        0 <= i,
        on_path(s, x, i),
    ensures
        on_path(s, x, landing(s, x, i)),
        cell_at(s, landing(s, x, i)) is None,
        0 <= landing(s, x, i) <= 2 * s.len(),
    decreases
        (if i < s.len() {
            s.len() - i
        } else {
            0
        }),
{
    if i < s.len() {
        match s[i] {
            Some(p) => {
                let next = step(p.0, x, i);
                assert(up(next) == i);
                lemma_landing_on_path(s, x, next);
            },
            None => {},
        }
    } else if i > 0 {
        assert(cell_at(s, up(i)) is Some);
    }
}

/// In clean slots every subtree is clean.
pub proof fn lemma_clean_everywhere<V>(s: Seq<Option<V>>, i: int)
    requires
        clean(s, 0),
        0 <= i,
    ensures
        clean(s, i),
{
    reveal(clean);
    assert forall|j: int|
        #[trigger] in_subtree(j, i) && j != i && cell_at(s, j) is Some implies cell_at(
        s,
        up(j),
    ) is Some by {
        lemma_all_under_root(j);
    }
}

/// Before the slot above `i` is rebalanced: that slot and its other subtree
/// are as they were before `x` came in below `i`, and its two subtrees are
/// sound and at most two levels apart.
pub proof fn lemma_retrace_before<T: Ordered>(
    s0: Seq<Option<(T, u32)>>,
    cur: Seq<Option<(T, u32)>>,
    x: T,
    i: int,
)
    requires
        i > 0,
        on_path(s0, x, i),
        clean(s0, 0),
        sound(tree_of(s0, 0)),
        agree_off(s0, cur, i),
        cell_at(cur, i) is Some,
        clean(cur, i),
        counted(tree_of(cur, i)),
        balanced(tree_of(cur, i)),
        tree_of(cur, i).height() == tree_of(s0, i).height() || tree_of(cur, i).height()
            == tree_of(s0, i).height() + 1,
    ensures
        on_path(s0, x, up(i)),
        cell_at(cur, up(i)) is Some,
        cell_at(cur, up(i)) == cell_at(s0, up(i)),
        tree_of(cur, sibling(i)) == tree_of(s0, sibling(i)),
        clean(cur, up(i)),
        counted(tree_of(cur, left(up(i)))),
        counted(tree_of(cur, right(up(i)))),
        balanced(tree_of(cur, left(up(i)))),
        balanced(tree_of(cur, right(up(i)))),
        tree_of(cur, left(up(i))).height() <= tree_of(cur, right(up(i))).height() + 2,
        tree_of(cur, right(up(i))).height() <= tree_of(cur, left(up(i))).height() + 2,
{
    let q = up(i);
    let dir = side_of(i);
    let sib = sibling(i);
    assert(i == dir.near(q) && sib == dir.far(q));
    lemma_children_apart(q);
    lemma_not_under_child(q);
    lemma_agree_off_at(s0, cur, i, q);
    lemma_off_gives_on(s0, cur, i, sib);
    lemma_tree_agree(s0, cur, sib);
    lemma_agree_transfers(s0, cur, sib);
    lemma_clean_everywhere(s0, sib);
    lemma_clean_from_children(cur, q);
    lemma_sound_everywhere(s0, sib);
    lemma_sound_everywhere(s0, q);
    lemma_sound_everywhere(s0, i);
    lemma_tree_unfold_dir(s0, q, dir);
    lemma_join(dir, tree_of(s0, i), cell_at(s0, q).unwrap(), tree_of(s0, sib));
}

/// After the slot above `i` has been rebalanced, `x` has its place in the
/// tree at that slot, which is as high as before `x` came in or one level
/// higher.
pub proof fn lemma_retrace_after<T: Ordered>(
    s0: Seq<Option<(T, u32)>>,
    cur: Seq<Option<(T, u32)>>,
    next: Seq<Option<(T, u32)>>,
    x: T,
    i: int,
)
    requires
        i > 0,
        on_path(s0, x, i),
        clean(s0, 0),
        sound(tree_of(s0, 0)),
        agree_off(s0, cur, i),
        placed(keys(tree_of(s0, i)), keys(tree_of(cur, i)), x),
        tree_of(cur, i).height() == tree_of(s0, i).height() || tree_of(cur, i).height()
            == tree_of(s0, i).height() + 1,
        cell_at(cur, up(i)) is Some,
        cell_at(cur, up(i)) == cell_at(s0, up(i)),
        tree_of(cur, sibling(i)) == tree_of(s0, sibling(i)),
        agree_off(cur, next, up(i)),
        keys(tree_of(next, up(i))) == keys(tree_of(cur, up(i))),
        tree_of(next, up(i)).height() == tree_of(cur, up(i)).height() || tree_of(
            next,
            up(i),
        ).height() + 1 == tree_of(cur, up(i)).height(),
        tree_of(cur, left(up(i))).height() <= tree_of(cur, right(up(i))).height() + 1
            && tree_of(cur, right(up(i))).height() <= tree_of(cur, left(up(i))).height() + 1
            ==> tree_of(next, up(i)).height() == tree_of(cur, up(i)).height(),
        tree_of(cur, i) == grown_with(tree_of(s0, i), x),
        tree_of(next, up(i)) == mended(tree_of(cur, up(i))),
    ensures
        tree_of(next, up(i)) == grown_with(tree_of(s0, up(i)), x),
        agree_off(s0, next, up(i)),
        placed(keys(tree_of(s0, up(i))), keys(tree_of(next, up(i))), x),
        tree_of(next, up(i)).height() == tree_of(s0, up(i)).height() || tree_of(
            next,
            up(i),
        ).height() == tree_of(s0, up(i)).height() + 1,
{
    let q = up(i);
    let dir = side_of(i);
    let sib = sibling(i);
    assert(i == dir.near(q) && sib == dir.far(q));
    lemma_children_under(q);
    lemma_off_within(s0, cur, i, q);
    lemma_agree_off_trans(s0, cur, next, q);
    lemma_sound_everywhere(s0, q);
    lemma_tree_unfold_dir(s0, q, dir);
    lemma_tree_unfold_dir(cur, q, dir);
    let v = cell_at(s0, q).unwrap();
    lemma_join(dir, tree_of(s0, i), v, tree_of(s0, sib));
    lemma_join(dir, tree_of(cur, i), v, tree_of(s0, sib));
    lemma_placed_lift(dir, keys(tree_of(s0, i)), keys(tree_of(cur, i)), x, v.0, keys(tree_of(s0, sib)));
    lemma_tree_unfold(s0, q);
    lemma_tree_unfold(cur, q);
}

/// A value put into the empty slot `i` of clean slots makes a sound tree of
/// one node there, in which the value has its place.
pub proof fn lemma_leaf_placed<T: Ordered>(
    s0: Seq<Option<(T, u32)>>,
    s1: Seq<Option<(T, u32)>>,
    x: T,
    i: int,
)
    requires
        0 <= i,
        clean(s0, 0),
        cell_at(s0, i) is None,
        same_but(s0, s1, i, i, i),
        cell_at(s1, i) == Some((x, 1u32)),
    ensures
        agree_off(s0, s1, i),
        clean(s1, i),
        counted(tree_of(s1, i)),
        balanced(tree_of(s1, i)),
        placed(keys(tree_of(s0, i)), keys(tree_of(s1, i)), x),
        tree_of(s1, i).height() == tree_of(s0, i).height() + 1,
        tree_of(s1, i) == grown_with(tree_of(s0, i), x),
{
    lemma_children_under(i);
    lemma_not_under_child(i);
    lemma_clean_everywhere(s0, i);
    lemma_clean_empty(s0, i);
    lemma_empty_children(s0, i);
    lemma_same_but_agree_off(s0, s1, i, i, i, i);
    lemma_same_but_agree_on(s0, s1, i, i, i, left(i));
    lemma_same_but_agree_on(s0, s1, i, i, i, right(i));
    lemma_empty_is_leaf(s0, left(i));
    lemma_empty_is_leaf(s0, right(i));
    lemma_empty_is_leaf(s1, left(i));
    lemma_empty_is_leaf(s1, right(i));
    lemma_clean_from_children(s1, i);
    lemma_tree_unfold(s1, i);
    lemma_join(Direction::LEFT, Tree::<(T, u32)>::Leaf, (x, 1u32), Tree::<(T, u32)>::Leaf);
    crate::search::lemma_placed_alone(x);
    assert(keys(tree_of(s1, i)) =~= seq![x]);
    assert(keys(tree_of(s0, i)) =~= Seq::<T>::empty());
}

} // verus!
