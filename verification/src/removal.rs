use vstd::prelude::*;
use crate::index::{
    in_subtree, left, lemma_apart_at, lemma_children_apart, lemma_not_under_child,
    lemma_subtree_split, right, up,
};
use crate::moves::lemma_children_under;
use crate::order::Ordered;
use crate::settle::strictly_sorted;
use crate::shape::Tree;
use crate::slots::{
    agree_off, cell_at, clean, lemma_agree_off_at, lemma_agree_transfers, lemma_all_under_root,
    lemma_clean_children, lemma_clean_empty, lemma_clean_from_children, lemma_empty_at,
    lemma_off_gives_on, lemma_off_within, lemma_tree_agree, lemma_tree_unfold, tree_of,
};

verus! {

/// `after` is `before` without one occurrence of `x`.
pub open spec fn taken<T>(before: Seq<T>, after: Seq<T>, x: T) -> bool {
    exists|k: int| taken_at(before, after, x, k)
}

/// `after` is `before` without the `x` at position `k`.
pub open spec fn taken_at<T>(before: Seq<T>, after: Seq<T>, x: T, k: int) -> bool {
    0 <= k < before.len() && before[k] == x && after == before.remove(k)
}

/// The slot of the value that comes last in order in the tree at slot `j`.
pub open spec fn last_slot<V>(s: Seq<Option<V>>, j: int) -> int
    decreases
        (if j < s.len() {
            s.len() - j
        } else {
            0
        }),
{
    if 0 <= j < s.len() && cell_at(s, right(j)) is Some {
        last_slot(s, right(j))
    } else {
        j
    }
}

/// The last slot of a tree lies in it, is occupied where the root is, and
/// has no right child.
pub proof fn lemma_last_slot<V>(s: Seq<Option<V>>, j: int)
    requires
        0 <= j,
        cell_at(s, j) is Some,
    ensures
        in_subtree(last_slot(s, j), j),
        cell_at(s, last_slot(s, j)) is Some,
        cell_at(s, right(last_slot(s, j))) is None,
    decreases
        (if j < s.len() {
            s.len() - j
        } else {
            0
        }),
{
    assert(in_subtree(j, j));
    if cell_at(s, right(j)) is Some {
        lemma_last_slot(s, right(j));
        lemma_children_under(j);
        crate::slots::lemma_subtree_trans(last_slot(s, right(j)), right(j), j);
    }
}

/// Where a strictly sorted sequence loses a value, it stays strictly
/// sorted and holds what it held but that value.
pub proof fn lemma_taken_strict<T: Ordered>(before: Seq<T>, after: Seq<T>, x: T)
    requires
        strictly_sorted(before),
        taken(before, after, x),
    ensures
        strictly_sorted(after),
        after.len() + 1 == before.len(),
        forall|v: T| #[trigger] after.contains(v) <==> before.contains(v) && v != x,
{
    reveal(strictly_sorted);
    let k = choose|k: int| taken_at(before, after, x, k);
    assert forall|i: int, j: int| 0 <= i < j < after.len() implies after[i].rank()
        < after[j].rank() by {
        if i < k {
            assert(after[i] == before[i]);
        } else {
            assert(after[i] == before[i + 1]);
        }
        if j < k {
            assert(after[j] == before[j]);
        } else {
            assert(after[j] == before[j + 1]);
        }
    }
    assert forall|v: T| #[trigger] after.contains(v) <==> before.contains(v) && v != x by {
        if after.contains(v) {
            let j = choose|j: int| 0 <= j < after.len() && after[j] == v;
            if j < k {
                assert(before[j] == v);
                assert(before[j].rank() < before[k].rank());
            } else {
                assert(before[j + 1] == v);
                assert(before[k].rank() < before[j + 1].rank());
            }
        }
        if before.contains(v) && v != x {
            let j = choose|j: int| 0 <= j < before.len() && before[j] == v;
            if j < k {
                assert(after[j] == v);
            } else {
                assert(after[j - 1] == v);
            }
        }
    }
}

/// A loss in one of three parts of a sequence is a loss in the whole.
pub proof fn lemma_taken_parts<T>(a0: Seq<T>, a1: Seq<T>, v: T, b0: Seq<T>, b1: Seq<T>, x: T)
    requires
        (taken(a0, a1, x) && b0 == b1) || (a0 == a1 && taken(b0, b1, x)),
    ensures
        taken(a0 + seq![v] + b0, a1 + seq![v] + b1, x),
{
    let whole = a0 + seq![v] + b0;
    let less = a1 + seq![v] + b1;
    if taken(a0, a1, x) && b0 == b1 {
        let k = choose|k: int| taken_at(a0, a1, x, k);
        assert(whole[k] == x);
        assert(less =~= whole.remove(k));
        assert(taken_at(whole, less, x, k));
    } else {
        let k = choose|k: int| taken_at(b0, b1, x, k);
        let at = a0.len() + 1 + k;
        assert(whole[at] == x);
        assert(less =~= whole.remove(at));
        assert(taken_at(whole, less, x, at));
    }
}

/// Where the tree at slot `i` loses a value and nothing changes outside
/// it, the tree at a slot above it loses that value.
pub proof fn lemma_taken_lift<T>(s0: Seq<Option<T>>, s1: Seq<Option<T>>, x: T, j: int, i: int)
    requires
        0 <= j,
        in_subtree(i, j),
        clean(s0, j),
        cell_at(s0, i) is Some,
        agree_off(s0, s1, i),
        taken(tree_of(s0, i).in_order(), tree_of(s1, i).in_order(), x),
    ensures
        taken(tree_of(s0, j).in_order(), tree_of(s1, j).in_order(), x),
    decreases i - j,
{
    if i != j {
        lemma_subtree_split(i, j);
        lemma_children_apart(j);
        lemma_not_under_child(j);
        lemma_clean_children(s0, j);
        if cell_at(s0, j) is None {
            lemma_clean_empty(s0, j);
            lemma_empty_at(s0, j, i);
        }
        assert(!in_subtree(j, i));
        lemma_agree_off_at(s0, s1, i, j);
        lemma_tree_unfold(s0, j);
        lemma_tree_unfold(s1, j);
        let v = cell_at(s0, j).unwrap();
        if in_subtree(i, left(j)) {
            lemma_taken_lift(s0, s1, x, left(j), i);
            lemma_apart_at(left(j), right(j), i);
            lemma_off_apart(s0, s1, i, left(j), right(j));
            lemma_tree_agree(s0, s1, right(j));
            lemma_taken_parts(
                tree_of(s0, left(j)).in_order(),
                tree_of(s1, left(j)).in_order(),
                v,
                tree_of(s0, right(j)).in_order(),
                tree_of(s1, right(j)).in_order(),
                x,
            );
        } else {
            lemma_taken_lift(s0, s1, x, right(j), i);
            lemma_off_apart(s0, s1, i, right(j), left(j));
            lemma_tree_agree(s0, s1, left(j));
            lemma_taken_parts(
                tree_of(s0, left(j)).in_order(),
                tree_of(s1, left(j)).in_order(),
                v,
                tree_of(s0, right(j)).in_order(),
                tree_of(s1, right(j)).in_order(),
                x,
            );
        }
    }
}

/// A change within the subtree rooted at `i`, which lies under `a`, leaves
/// the subtree rooted at `b` as it was where `a` and `b` are apart.
pub proof fn lemma_off_apart<V>(s0: Seq<Option<V>>, s1: Seq<Option<V>>, i: int, a: int, b: int)
    requires
        agree_off(s0, s1, i),
        in_subtree(i, a),
        crate::index::apart(a, b),
    ensures
        crate::slots::agree_on(s0, s1, b),
{
    lemma_off_within(s0, s1, i, a);
    crate::index::lemma_apart_symmetric(a, b);
    lemma_off_gives_on(s0, s1, a, b);
}

/// Where the subtree at slot `i`, which was occupied, is clean after a
/// change that touched nothing outside it, the whole array is clean.
pub proof fn lemma_clean_patch<V>(s0: Seq<Option<V>>, s1: Seq<Option<V>>, i: int)
    requires
        0 <= i,
        clean(s0, 0),
        cell_at(s0, i) is Some,
        agree_off(s0, s1, i),
        clean(s1, i),
    ensures
        clean(s1, 0),
{
    assert forall|j: int|
        #[trigger] in_subtree(j, 0) && j != 0 && cell_at(s1, j) is Some implies cell_at(
        s1,
        up(j),
    ) is Some by {
        if in_subtree(j, i) && j != i {
            reveal(clean);
        } else {
            assert(!in_subtree(up(j), i)) by {
                if in_subtree(up(j), i) {
                    lemma_children_under(up(j));
                    assert(j == left(up(j)) || j == right(up(j)));
                    crate::slots::lemma_subtree_trans(j, up(j), i);
                }
            }
            lemma_agree_off_at(s0, s1, i, up(j));
            if j != i {
                lemma_agree_off_at(s0, s1, i, j);
            }
            lemma_all_under_root(j);
            lemma_clean_at(s0, 0, j);
        }
    }
    assert(clean(s1, 0)) by {
        reveal(clean);
    }
}

/// In a clean subtree an occupied slot other than the root hangs under an
/// occupied one.
pub proof fn lemma_clean_at<V>(s: Seq<Option<V>>, i: int, j: int)
    requires
        clean(s, i),
        in_subtree(j, i),
        j != i,
    ensures
        cell_at(s, j) is Some ==> cell_at(s, up(j)) is Some,
{
    reveal(clean);
}

/// Where the last value of the tree at slot `j` leaves and its left subtree
/// comes up into its slot, the tree keeps its other values in their order.
pub proof fn lemma_last_cut<T>(s0: Seq<Option<T>>, s1: Seq<Option<T>>, j: int)
    requires
        0 <= j,
        cell_at(s0, j) is Some,
        clean(s0, j),
        agree_off(s0, s1, last_slot(s0, j)),
        tree_of(s1, last_slot(s0, j)) == tree_of(s0, left(last_slot(s0, j))),
        clean(s1, last_slot(s0, j)),
    ensures
        tree_of(s0, j).in_order() == tree_of(s1, j).in_order().push(
            cell_at(s0, last_slot(s0, j)).unwrap(),
        ),
        clean(s1, j),
    decreases
        (if j < s0.len() {
            s0.len() - j
        } else {
            0
        }),
{
    let p = last_slot(s0, j);
    lemma_tree_unfold(s0, j);
    if cell_at(s0, right(j)) is Some {
        lemma_last_slot(s0, right(j));
        lemma_children_apart(j);
        lemma_not_under_child(j);
        lemma_children_under(j);
        lemma_clean_children(s0, j);
        lemma_last_cut(s0, s1, right(j));
        crate::slots::lemma_subtree_trans(p, right(j), j);
        assert(!in_subtree(j, p));
        lemma_agree_off_at(s0, s1, p, j);
        lemma_off_apart(s0, s1, p, right(j), left(j));
        lemma_tree_agree(s0, s1, left(j));
        lemma_agree_transfers(s0, s1, left(j));
        lemma_tree_unfold(s1, j);
        lemma_clean_from_children(s1, j);
        assert(tree_of(s0, j).in_order() =~= tree_of(s1, j).in_order().push(
            cell_at(s0, p).unwrap(),
        ));
    } else {
        assert(tree_of(s0, right(j)).in_order() =~= Seq::<T>::empty());
        assert(tree_of(s0, j).in_order() =~= tree_of(s1, j).in_order().push(
            cell_at(s0, p).unwrap(),
        ));
    }
}

/// The value that comes last in order in `tree`.
pub open spec fn last_value<V>(tree: Tree<V>) -> V
    decreases tree,
{
    match tree {
        Tree::Leaf => arbitrary(),
        Tree::Node(_, v, r) => if *r is Leaf {
            v
        } else {
            last_value(*r)
        },
    }
}

/// `tree` without the node that comes last in order: the left subtree of
/// that node takes its place.
pub open spec fn without_last<V>(tree: Tree<V>) -> Tree<V>
    decreases tree,
{
    match tree {
        Tree::Leaf => Tree::Leaf,
        Tree::Node(l, v, r) => if *r is Leaf {
            *l
        } else {
            Tree::Node(l, v, Box::new(without_last(*r)))
        },
    }
}

/// `tree` without its root: a root with at most one child gives way to the
/// subtree of that child; a root with two children takes the value that
/// comes before it in order, whose node leaves the left subtree.
pub open spec fn without_root<V>(tree: Tree<V>) -> Tree<V> {
    match tree {
        Tree::Leaf => Tree::Leaf,
        Tree::Node(l, _, r) => if *l is Leaf {
            *r
        } else if *r is Leaf {
            *l
        } else {
            Tree::Node(Box::new(without_last(*l)), last_value(*l), r)
        },
    }
}

/// `tree` without the node at which a search for `x` finds it.
pub open spec fn without<T: Ordered>(tree: Tree<T>, x: T) -> Tree<T>
    decreases tree,
{
    match tree {
        Tree::Leaf => Tree::Leaf,
        Tree::Node(l, v, r) => if v.rank() == x.rank() {
            without_root(tree)
        } else if v.rank() > x.rank() {
            Tree::Node(Box::new(without(*l, x)), v, r)
        } else {
            Tree::Node(l, v, Box::new(without(*r, x)))
        },
    }
}

/// Where the last value of the tree at slot `j` leaves and its left subtree
/// comes up into its slot, the tree at `j` is the tree without its last node.
pub proof fn lemma_last_cut_shape<T>(s0: Seq<Option<T>>, s1: Seq<Option<T>>, j: int)
    requires
        0 <= j,
        cell_at(s0, j) is Some,
        clean(s0, j),
        agree_off(s0, s1, last_slot(s0, j)),
        tree_of(s1, last_slot(s0, j)) == tree_of(s0, left(last_slot(s0, j))),
    ensures
        tree_of(s1, j) == without_last(tree_of(s0, j)),
        cell_at(s0, last_slot(s0, j)) == Some(last_value(tree_of(s0, j))),
    decreases
        (if j < s0.len() {
            s0.len() - j
        } else {
            0
        }),
{
    let p = last_slot(s0, j);
    lemma_tree_unfold(s0, j);
    crate::slots::lemma_tree_stored(s0, right(j));
    if cell_at(s0, right(j)) is Some {
        lemma_last_slot(s0, right(j));
        lemma_children_apart(j);
        lemma_not_under_child(j);
        lemma_children_under(j);
        lemma_clean_children(s0, j);
        lemma_last_cut_shape(s0, s1, right(j));
        crate::slots::lemma_subtree_trans(p, right(j), j);
        assert(!in_subtree(j, p));
        lemma_agree_off_at(s0, s1, p, j);
        lemma_off_apart(s0, s1, p, right(j), left(j));
        lemma_tree_agree(s0, s1, left(j));
        lemma_tree_unfold(s1, j);
    }
}

/// Where the tree at the slot at which a search for `x` from slot `j`
/// finds it loses its root, and nothing changes outside it, the tree at
/// `j` is the tree without `x`.
pub proof fn lemma_without_lift<T: Ordered>(
    s0: Seq<Option<T>>,
    s1: Seq<Option<T>>,
    x: T,
    j: int,
    i: int,
)
    requires
        0 <= j,
        crate::lookup::lookup(s0, x, j) == Some(i),
        agree_off(s0, s1, i),
        tree_of(s1, i) == without_root(tree_of(s0, i)),
    ensures
        tree_of(s1, j) == without(tree_of(s0, j), x),
    decreases
        (if j < s0.len() {
            s0.len() - j
        } else {
            0
        }),
{
    lemma_tree_unfold(s0, j);
    let v = cell_at(s0, j).unwrap();
    if v.rank() != x.rank() {
        let c = if v.rank() > x.rank() {
            left(j)
        } else {
            right(j)
        };
        let o = if v.rank() > x.rank() {
            right(j)
        } else {
            left(j)
        };
        crate::settle::lemma_settle(s0, x, c);
        lemma_children_apart(j);
        lemma_not_under_child(j);
        lemma_children_under(j);
        crate::slots::lemma_subtree_trans(i, c, j);
        assert(!in_subtree(j, i));
        lemma_agree_off_at(s0, s1, i, j);
        lemma_without_lift(s0, s1, x, c, i);
        crate::index::lemma_apart_symmetric(left(j), right(j));
        lemma_off_apart(s0, s1, i, c, o);
        lemma_tree_agree(s0, s1, o);
        lemma_tree_unfold(s1, j);
    }
}

/// A tree that does not hold `x` is the tree without `x`.
pub proof fn lemma_without_nothing<T: Ordered>(tree: Tree<T>, x: T)
    requires
        !tree.in_order().contains(x),
    ensures
        without(tree, x) == tree,
    decreases tree,
{
    match tree {
        Tree::Leaf => {},
        Tree::Node(l, v, r) => {
            crate::lookup::lemma_contains_parts(l.in_order(), v, r.in_order(), x);
            lemma_without_nothing(*l, x);
            lemma_without_nothing(*r, x);
            if v.rank() == x.rank() {
                T::rank_is_injective(v, x);
            }
        },
    }
}

} // verus!
