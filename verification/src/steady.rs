use vstd::prelude::*;
use crate::balance::{stored, strip};
use crate::index::{in_subtree, left, lemma_subtree_split, right};
use crate::order::Ordered;
use crate::search::{grown_with, landing};
use crate::shape::Tree;
use crate::slots::{
    cell_at, clean, lemma_clean_children, lemma_clean_empty, lemma_empty_at, lemma_tree_stored,
    lemma_tree_unfold, tree_of,
};

verus! {

/// Whether `x` comes into `tree` without a rotation: at every node on the
/// way of `x`, once `x` is in place below it, the counters of the two
/// children differ by at most one.
pub open spec fn steady<T: Ordered>(tree: Tree<(T, u32)>, x: T) -> bool
    decreases tree,
{
    match tree {
        Tree::Leaf => true,
        Tree::Node(l, p, r) => if p.0.rank() > x.rank() {
            steady(*l, x) && stored(grown_with(*l, x)) <= stored(*r) + 1 && stored(*r) <= stored(
                grown_with(*l, x),
            ) + 1
        } else {
            steady(*r, x) && stored(grown_with(*r, x)) <= stored(*l) + 1 && stored(*l) <= stored(
                grown_with(*r, x),
            ) + 1
        },
    }
}

/// `tree` with `x` hung below it as a node without children, where a search
/// for its place ends; every other node stays where it is.
pub open spec fn hung<T: Ordered>(tree: Tree<T>, x: T) -> Tree<T>
    decreases tree,
{
    match tree {
        Tree::Leaf => Tree::Node(Box::new(Tree::Leaf), x, Box::new(Tree::Leaf)),
        Tree::Node(l, v, r) => if v.rank() > x.rank() {
            Tree::Node(Box::new(hung(*l, x)), v, r)
        } else {
            Tree::Node(l, v, Box::new(hung(*r, x)))
        },
    }
}

/// A value that comes in without a rotation is hung below the tree: but for
/// the counters, the tree is as it was, with one node more.
pub proof fn lemma_steady_is_hung<T: Ordered>(tree: Tree<(T, u32)>, x: T)
    requires
        steady(tree, x),
    ensures
        strip(grown_with(tree, x)) == hung(strip(tree), x),
    decreases tree,
{
    match tree {
        Tree::Leaf => {},
        Tree::Node(l, p, r) => {
            if p.0.rank() > x.rank() {
                lemma_steady_is_hung(*l, x);
            } else {
                lemma_steady_is_hung(*r, x);
            }
        },
    }
}

/// Where two runs of slots stand for trees of the same values at slot `i`,
/// an occupied slot of the first below `i` holds the same value in the
/// second.
pub proof fn lemma_same_values<T>(
    s1: Seq<Option<(T, u32)>>,
    s2: Seq<Option<(T, u32)>>,
    i: int,
    j: int,
)
    requires
        0 <= i,
        clean(s1, i),
        strip(tree_of(s2, i)) == strip(tree_of(s1, i)),
        in_subtree(j, i),
        cell_at(s1, j) is Some,
    ensures
        cell_at(s2, j) is Some,
        cell_at(s2, j).unwrap().0 == cell_at(s1, j).unwrap().0,
    decreases
        (if i < s1.len() {
            s1.len() - i
        } else {
            0
        }),
{
    if cell_at(s1, i) is None {
        lemma_clean_empty(s1, i);
        lemma_empty_at(s1, i, j);
    } else {
        lemma_tree_unfold(s1, i);
        lemma_tree_stored(s2, i);
        lemma_tree_unfold(s2, i);
        if j != i {
            lemma_subtree_split(j, i);
            lemma_clean_children(s1, i);
            if in_subtree(j, left(i)) {
                lemma_same_values(s1, s2, left(i), j);
            } else {
                lemma_same_values(s1, s2, right(i), j);
            }
        }
    }
}

/// Where the second run of slots stands at slot `i` for the tree of the
/// first with `x` hung below it, `x` is in the slot at which the search for
/// its place ends in the first, and an occupied slot of the first below `i`
/// holds the same value in the second.
pub proof fn lemma_hung_values<T: Ordered>(
    s1: Seq<Option<(T, u32)>>,
    s2: Seq<Option<(T, u32)>>,
    x: T,
    i: int,
    j: int,
)
    requires
        0 <= i,
        clean(s1, i),
        strip(tree_of(s2, i)) == hung(strip(tree_of(s1, i)), x),
        in_subtree(j, i),
    ensures
        cell_at(s2, landing(s1, x, i)) is Some,
        cell_at(s2, landing(s1, x, i)).unwrap().0 == x,
        cell_at(s1, j) is Some ==> cell_at(s2, j) is Some && cell_at(s2, j).unwrap().0 == cell_at(
            s1,
            j,
        ).unwrap().0,
    decreases
        (if i < s1.len() {
            s1.len() - i
        } else {
            0
        }),
{
    lemma_tree_stored(s2, i);
    if cell_at(s1, i) is None {
        lemma_clean_empty(s1, i);
        lemma_empty_at(s1, i, j);
    } else {
        let p = cell_at(s1, i).unwrap();
        lemma_tree_unfold(s1, i);
        lemma_tree_unfold(s2, i);
        lemma_clean_children(s1, i);
        let down = if p.0.rank() > x.rank() {
            left(i)
        } else {
            right(i)
        };
        let beside = if p.0.rank() > x.rank() {
            right(i)
        } else {
            left(i)
        };
        assert(in_subtree(down, down));
        if j == i {
            lemma_hung_values(s1, s2, x, down, down);
        } else {
            lemma_subtree_split(j, i);
            if in_subtree(j, down) {
                lemma_hung_values(s1, s2, x, down, j);
            } else {
                lemma_hung_values(s1, s2, x, down, down);
                if cell_at(s1, j) is Some {
                    lemma_same_values(s1, s2, beside, j);
                }
            }
        }
    }
}

} // verus!
