use vstd::prelude::*;
use crate::balance::{placed, placed_at, sorted};
use crate::index::{
    in_subtree, left, lemma_apart_at, lemma_children_apart, lemma_not_under_child,
    lemma_subtree_of_child, level, right, Direction, MAX_HEIGHT,
};
use crate::lookup::{lemma_sorted_split, lookup};
use crate::moves::lemma_children_under;
use crate::order::Ordered;
use crate::search::{lemma_placed_alone, lemma_placed_lift};
use crate::shape::Tree;
use crate::slots::{
    agree_off, cell_at, clean, lemma_clean_children, lemma_clean_empty, lemma_clean_from_children,
    lemma_empty_children, lemma_empty_is_leaf, lemma_same_but_agree_off, lemma_same_but_agree_on,
    lemma_tree_unfold, same_but, tree_of,
};

verus! {

/// The values go up from each position to the next.
#[verifier::opaque]
pub open spec fn strictly_sorted<T: Ordered>(s: Seq<T>) -> bool {
    forall|i: int, j: int| 0 <= i < j < s.len() ==> s[i].rank() < s[j].rank()
}

/// The slot at which a search for `x` that starts at slot `i` ends: the
/// first slot on its way that holds `x` or is empty.
pub open spec fn settle<T: Ordered>(s: Seq<Option<T>>, x: T, i: int) -> int
    decreases
        (if i < s.len() {
            s.len() - i
        } else {
            0
        }),
{
    if 0 <= i < s.len() {
        match s[i] {
            Some(v) => if v.rank() == x.rank() {
                i
            } else if v.rank() > x.rank() {
                settle(s, x, left(i))
            } else {
                settle(s, x, right(i))
            },
            None => i,
        }
    } else {
        i
    }
}

/// The tree that `tree` is after `x` has been put in: a tree that holds
/// `x` as it is, else with `x` as a node without children where a search
/// for `x` ends.
pub open spec fn planted<T: Ordered>(tree: Tree<T>, x: T) -> Tree<T>
    decreases tree,
{
    match tree {
        Tree::Leaf => Tree::Node(Box::new(Tree::Leaf), x, Box::new(Tree::Leaf)),
        Tree::Node(l, v, r) => if v.rank() == x.rank() {
            tree
        } else if v.rank() > x.rank() {
            Tree::Node(Box::new(planted(*l, x)), v, r)
        } else {
            Tree::Node(l, v, Box::new(planted(*r, x)))
        },
    }
}

/// The tree that `tree` is after the first `n` values of `data` have been
/// put in, one after the other.
pub open spec fn planted_all<T: Ordered>(tree: Tree<T>, data: Seq<T>, n: int) -> Tree<T>
    decreases n,
{
    if n <= 0 {
        tree
    } else {
        planted(planted_all(tree, data, n - 1), data[n - 1])
    }
}

/// The number of steps that a search for `x` takes down `tree` before it
/// ends, on `x` or where the tree ends.
pub open spec fn settle_depth<T: Ordered>(tree: Tree<T>, x: T) -> nat
    decreases tree,
{
    match tree {
        Tree::Leaf => 0,
        Tree::Node(l, v, r) => if v.rank() == x.rank() {
            0
        } else if v.rank() > x.rank() {
            1 + settle_depth(*l, x)
        } else {
            1 + settle_depth(*r, x)
        },
    }
}

/// Each of the first `n` values of `data` ends its search above the height
/// limit when they are put one after the other into `tree`, whose root
/// lies at the level `base`.
pub open spec fn fits<T: Ordered>(tree: Tree<T>, data: Seq<T>, n: int, base: nat) -> bool
    decreases n,
{
    n <= 0 || (fits(tree, data, n - 1, base) && base + settle_depth(
        planted_all(tree, data, n - 1),
        data[n - 1],
    ) < MAX_HEIGHT)
}

/// Where the first `n` values fit, fewer fit.
pub proof fn lemma_fits_until<T: Ordered>(tree: Tree<T>, data: Seq<T>, n: int, base: nat, k: int)
    requires
        fits(tree, data, n, base),
        0 < k <= n,
    ensures
        fits(tree, data, k, base),
        base + settle_depth(planted_all(tree, data, k - 1), data[k - 1]) < MAX_HEIGHT,
    decreases n,
{
    if k < n {
        lemma_fits_until(tree, data, n - 1, base, k);
    }
}

/// A search ends no deeper than the tree is high, and a tree gains at most
/// one level when a value is put in.
pub proof fn lemma_planted_height<T: Ordered>(tree: Tree<T>, x: T)
    ensures
        settle_depth(tree, x) <= tree.height(),
        tree.height() <= planted(tree, x).height() <= tree.height() + 1,
    decreases tree,
{
    match tree {
        Tree::Leaf => {
            assert(planted(tree, x).height() == 1) by {
                reveal_with_fuel(Tree::height, 2);
            }
        },
        Tree::Node(l, _, r) => {
            lemma_planted_height(*l, x);
            lemma_planted_height(*r, x);
        },
    }
}

/// Values fit into a tree that lies with as many further levels as there
/// are values within the height limit.
pub proof fn law_fits_by_height<T: Ordered>(tree: Tree<T>, data: Seq<T>, n: int, base: nat)
    requires
        0 <= n,
        base + tree.height() + n <= MAX_HEIGHT,
    ensures
        fits(tree, data, n, base),
        planted_all(tree, data, n).height() <= tree.height() + n,
    decreases n,
{
    if n > 0 {
        law_fits_by_height(tree, data, n - 1, base);
        lemma_planted_height(planted_all(tree, data, n - 1), data[n - 1]);
    }
}

/// The slot at which a search ends lies as many levels below the slot at
/// which it starts as the search takes steps down the tree.
pub proof fn lemma_settle_level<T: Ordered>(s: Seq<Option<T>>, x: T, i: int)
    requires
        0 <= i,
    ensures
        level(settle(s, x, i)) == level(i) + settle_depth(tree_of(s, i), x),
    decreases
        (if i < s.len() {
            s.len() - i
        } else {
            0
        }),
{
    if i < s.len() {
        match s[i] {
            Some(v) => {
                crate::index::lemma_level_of_child(i);
                if v.rank() > x.rank() {
                    lemma_settle_level(s, x, left(i));
                } else if v.rank() < x.rank() {
                    lemma_settle_level(s, x, right(i));
                }
            },
            None => {},
        }
    }
}

/// A tree in which a search finds `x` stays as it is when `x` is put in.
pub proof fn lemma_planted_found<T: Ordered>(s: Seq<Option<T>>, x: T, i: int)
    requires
        lookup(s, x, i) is Some,
    ensures
        planted(tree_of(s, i), x) == tree_of(s, i),
    decreases
        (if i < s.len() {
            s.len() - i
        } else {
            0
        }),
{
    let v = cell_at(s, i).unwrap();
    lemma_tree_unfold(s, i);
    if v.rank() > x.rank() {
        lemma_planted_found(s, x, left(i));
    } else if v.rank() < x.rank() {
        lemma_planted_found(s, x, right(i));
    }
}

/// A search ends in the subtree in which it started, at a slot that holds
/// what it looked for or nothing, and finds a value exactly where it ends
/// on it.
pub proof fn lemma_settle<T: Ordered>(s: Seq<Option<T>>, x: T, i: int)
    requires
        0 <= i,
    ensures
        in_subtree(settle(s, x, i), i),
        settle(s, x, i) <= 2 * s.len() || settle(s, x, i) == i,
        cell_at(s, settle(s, x, i)) matches Some(v) ==> v == x,
        lookup(s, x, i) == (if cell_at(s, settle(s, x, i)) is Some {
            Some(settle(s, x, i))
        } else {
            None
        }),
    decreases
        (if i < s.len() {
            s.len() - i
        } else {
            0
        }),
{
    assert(in_subtree(i, i));
    if i < s.len() {
        match s[i] {
            Some(v) => {
                if v.rank() == x.rank() {
                    T::rank_is_injective(v, x);
                } else if v.rank() > x.rank() {
                    lemma_settle(s, x, left(i));
                    lemma_subtree_of_child(settle(s, x, left(i)), i);
                } else {
                    lemma_settle(s, x, right(i));
                    lemma_subtree_of_child(settle(s, x, right(i)), i);
                }
            },
            None => {},
        }
    }
}

/// A strictly sorted sequence is sorted.
pub proof fn lemma_strict_is_sorted<T: Ordered>(s: Seq<T>)
    requires
        strictly_sorted(s),
    ensures
        sorted(s),
{
    reveal(strictly_sorted);
    reveal(sorted);
}

/// A strictly sorted sequence stays so when a value that it does not hold
/// is put in at its place.
pub proof fn lemma_placed_strict<T: Ordered>(before: Seq<T>, after: Seq<T>, x: T)
    requires
        strictly_sorted(before),
        placed(before, after, x),
        !before.contains(x),
    ensures
        strictly_sorted(after),
{
    reveal(strictly_sorted);
    let k = choose|k: int| placed_at(before, after, x, k);
    assert forall|i: int| 0 <= i < before.len() implies (#[trigger] before[i]).rank()
        != x.rank() by {
        if before[i].rank() == x.rank() {
            T::rank_is_injective(before[i], x);
        }
    }
    assert forall|i: int, j: int| 0 <= i < j < after.len() implies after[i].rank()
        < after[j].rank() by {
        if i < k {
            assert(after[i] == before[i]);
        } else if i > k {
            assert(after[i] == before[i - 1]);
        }
        if j < k {
            assert(after[j] == before[j]);
        } else if j > k {
            assert(after[j] == before[j - 1]);
        }
    }
}

/// A value put into the empty slot at which the search for it ends has its
/// place among the values of the tree; nothing else changes.
pub proof fn lemma_settled_is_placed<T: Ordered>(
    s0: Seq<Option<T>>,
    s1: Seq<Option<T>>,
    x: T,
    i: int,
)
    requires
        0 <= i,
        clean(s0, i),
        sorted(tree_of(s0, i).in_order()),
        cell_at(s0, settle(s0, x, i)) is None,
        same_but(s0, s1, settle(s0, x, i), settle(s0, x, i), settle(s0, x, i)),
        cell_at(s1, settle(s0, x, i)) == Some(x),
    ensures
        tree_of(s1, i) == planted(tree_of(s0, i), x),
        placed(tree_of(s0, i).in_order(), tree_of(s1, i).in_order(), x),
        clean(s1, i),
        agree_off(s0, s1, i),
    decreases
        (if i < s0.len() {
            s0.len() - i
        } else {
            0
        }),
{
    let k = settle(s0, x, i);
    lemma_settle(s0, x, i);
    lemma_children_under(i);
    lemma_not_under_child(i);
    lemma_children_apart(i);
    lemma_same_but_agree_off(s0, s1, k, k, k, i);
    if cell_at(s0, i) is None {
        lemma_clean_empty(s0, i);
        lemma_empty_children(s0, i);
        lemma_same_but_agree_on(s0, s1, i, i, i, left(i));
        lemma_same_but_agree_on(s0, s1, i, i, i, right(i));
        lemma_empty_is_leaf(s1, left(i));
        lemma_empty_is_leaf(s1, right(i));
        lemma_clean_from_children(s1, i);
        lemma_tree_unfold(s1, i);
        lemma_placed_alone(x);
        assert(tree_of(s1, i).in_order() =~= seq![x]);
        assert(tree_of(s0, i).in_order() =~= Seq::<T>::empty());
    } else {
        let v = cell_at(s0, i).unwrap();
        let dir = if v.rank() > x.rank() {
            Direction::LEFT
        } else {
            Direction::RIGHT
        };
        let c = dir.near(i);
        let o = dir.far(i);
        lemma_settle(s0, x, c);
        lemma_apart_at(c, o, k);
        lemma_clean_children(s0, i);
        lemma_tree_unfold(s0, i);
        lemma_sorted_split(tree_of(s0, left(i)).in_order(), v, tree_of(s0, right(i)).in_order());
        lemma_settled_is_placed(s0, s1, x, c);
        lemma_same_but_agree_on(s0, s1, k, k, k, o);
        assert(cell_at(s1, i) == cell_at(s0, i)) by {
            reveal(same_but);
        }
        lemma_clean_from_children(s1, i);
        lemma_tree_unfold(s1, i);
        lemma_placed_lift(
            dir,
            tree_of(s0, c).in_order(),
            tree_of(s1, c).in_order(),
            x,
            v,
            tree_of(s0, o).in_order(),
        );
    }
}

} // verus!
