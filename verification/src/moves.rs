use vstd::prelude::*;
use crate::index::{
    apart, in_subtree, left, lemma_apart_at, lemma_apart_grid, lemma_children_apart,
    lemma_not_under_child, lemma_subtree_of_child, right, up, Direction,
};
use crate::shape::Tree;
use crate::slots::{
    agree_off, agree_off2, agree_on, cell_at, clean, empty_below, lemma_agree_off2_at,
    lemma_agree_off2_trans, lemma_agree_off_at, lemma_agree_off_trans, lemma_agree_on_trans,
    lemma_agree_transfers, lemma_clean_children, lemma_clean_empty, lemma_clean_from_children,
    lemma_empty_children, lemma_empty_from_children, lemma_empty_is_leaf, lemma_off2_gives_on,
    lemma_off2_widen, lemma_off2_within, lemma_off_gives_on, lemma_off_within,
    lemma_same_but_agree_off, lemma_same_but_agree_on, lemma_same_cells, lemma_same_cells_at,
    lemma_tree_agree, lemma_tree_unfold, lemma_update2_agree_off2, lemma_update_agree_on, same_but,
    same_cells, tree_of,
};

verus! {

/// Two writes outside the subtree rooted at `i` leave that subtree as it was.
pub proof fn lemma_two_writes_agree<V>(
    s0: Seq<Option<V>>,
    s1: Seq<Option<V>>,
    a: int,
    x: Option<V>,
    b: int,
    y: Option<V>,
    i: int,
)
    requires
        same_cells(s0, s1),
        0 <= a < s1.len(),
        0 <= b < s1.len(),
        !in_subtree(a, i),
        !in_subtree(b, i),
    ensures
        agree_on(s0, s1.update(a, x).update(b, y), i),
        tree_of(s0, i) == tree_of(s1.update(a, x).update(b, y), i),
        clean(s0, i) == clean(s1.update(a, x).update(b, y), i),
        empty_below(s0, i) == empty_below(s1.update(a, x).update(b, y), i),
{
    let s2 = s1.update(a, x);
    let s3 = s2.update(b, y);
    lemma_same_cells(s0, s1, i);
    lemma_update_agree_on(s1, a, x, i);
    lemma_update_agree_on(s2, b, y, i);
    lemma_agree_on_trans(s0, s1, s2, i);
    lemma_agree_on_trans(s0, s2, s3, i);
    lemma_tree_agree(s0, s3, i);
    lemma_agree_transfers(s0, s3, i);
}

/// Two writes at `a` and `b` change nothing outside the subtrees rooted there.
pub proof fn lemma_two_writes_frame<V>(
    s0: Seq<Option<V>>,
    s1: Seq<Option<V>>,
    a: int,
    x: Option<V>,
    b: int,
    y: Option<V>,
)
    requires
        same_cells(s0, s1),
        0 <= a < s1.len(),
        0 <= b < s1.len(),
    ensures
        agree_off2(s0, s1.update(a, x).update(b, y), a, b),
        agree_off2(s0, s1.update(a, x).update(b, y), b, a),
{
    let s3 = s1.update(a, x).update(b, y);
    lemma_update2_agree_off2(s1, a, x, b, y);
    reveal(agree_off2);
    assert forall|j: int|
        !#[trigger] in_subtree(j, a) && !#[trigger] in_subtree(j, b) implies cell_at(s0, j)
        == cell_at(s3, j) by {
        lemma_same_cells_at(s0, s1, j);
    }
}

/// The tree at an occupied slot, told by the side `dir`.
pub proof fn lemma_tree_unfold_dir<V>(s: Seq<Option<V>>, i: int, dir: Direction)
    requires
        cell_at(s, i) is Some,
    ensures
        tree_of(s, i) == Tree::join(
            dir,
            tree_of(s, dir.near(i)),
            cell_at(s, i).unwrap(),
            tree_of(s, dir.far(i)),
        ),
{
    lemma_tree_unfold(s, i);
}

/// After the root of a subtree has been copied from `f` to `t`, and `f`
/// emptied, the subtrees of the children of `f` can follow one by one.
pub proof fn lemma_relocate_start<V>(
    s0: Seq<Option<V>>,
    s1: Seq<Option<V>>,
    s3: Seq<Option<V>>,
    f: int,
    t: int,
    x: V,
)
    requires
        0 <= f < s1.len(),
        0 <= t < s1.len(),
        apart(f, t),
        clean(s0, f),
        empty_below(s0, t),
        same_cells(s0, s1),
        s3 == s1.update(t, Some(x)).update(f, None),
    ensures
        f != t,
        cell_at(s3, t) == Some(x),
        cell_at(s3, f) is None,
        apart(left(f), left(t)),
        apart(right(f), right(t)),
        clean(s3, left(f)),
        clean(s3, right(f)),
        empty_below(s3, left(t)),
        empty_below(s3, right(t)),
        tree_of(s3, left(f)) == tree_of(s0, left(f)),
        tree_of(s3, right(f)) == tree_of(s0, right(f)),
        agree_off2(s0, s3, f, t),
{
    lemma_apart_grid(f, t);
    lemma_apart_at(f, t, f);
    lemma_apart_at(left(f), t, t);
    lemma_apart_at(right(f), t, t);
    lemma_apart_at(f, left(t), f);
    lemma_apart_at(f, right(t), f);
    lemma_not_under_child(f);
    lemma_not_under_child(t);
    lemma_clean_children(s0, f);
    lemma_empty_children(s0, t);
    lemma_two_writes_agree(s0, s1, t, Some(x), f, None, left(f));
    lemma_two_writes_agree(s0, s1, t, Some(x), f, None, right(f));
    lemma_two_writes_agree(s0, s1, t, Some(x), f, None, left(t));
    lemma_two_writes_agree(s0, s1, t, Some(x), f, None, right(t));
    lemma_two_writes_frame(s0, s1, t, Some(x), f, None);
}

/// Once the left subtree has moved, the right one can.
pub proof fn lemma_relocate_mid<V>(
    s3: Seq<Option<V>>,
    s4: Seq<Option<V>>,
    f: int,
    t: int,
)
    requires
        0 <= f,
        0 <= t,
        apart(f, t),
        clean(s3, right(f)),
        empty_below(s3, right(t)),
        agree_off2(s3, s4, left(f), left(t)),
    ensures
        clean(s4, right(f)),
        empty_below(s4, right(t)),
        tree_of(s4, right(f)) == tree_of(s3, right(f)),
{
    lemma_apart_grid(f, t);
    lemma_off2_gives_on(s3, s4, left(f), left(t), right(f));
    lemma_off2_gives_on(s3, s4, left(f), left(t), right(t));
    lemma_agree_transfers(s3, s4, right(f));
    lemma_agree_transfers(s3, s4, right(t));
    lemma_tree_agree(s3, s4, right(f));
}

/// Once both subtrees have moved, the whole subtree stands at `t`.
pub proof fn lemma_relocate_end<V>(
    s0: Seq<Option<V>>,
    s3: Seq<Option<V>>,
    s4: Seq<Option<V>>,
    s5: Seq<Option<V>>,
    f: int,
    t: int,
    x: V,
)
    requires
        0 <= f,
        0 <= t,
        apart(f, t),
        cell_at(s0, f) == Some(x),
        cell_at(s3, t) == Some(x),
        cell_at(s3, f) is None,
        agree_off2(s0, s3, f, t),
        tree_of(s4, left(t)) == tree_of(s0, left(f)),
        clean(s4, left(t)),
        empty_below(s4, left(f)),
        agree_off2(s3, s4, left(f), left(t)),
        tree_of(s5, right(t)) == tree_of(s0, right(f)),
        clean(s5, right(t)),
        empty_below(s5, right(f)),
        agree_off2(s4, s5, right(f), right(t)),
    ensures
        tree_of(s5, t) == tree_of(s0, f),
        clean(s5, t),
        empty_below(s5, f),
        agree_off2(s0, s5, f, t),
{
    lemma_apart_grid(f, t);
    lemma_not_under_child(f);
    lemma_not_under_child(t);
    lemma_apart_at(f, left(t), f);
    lemma_apart_at(f, right(t), f);
    lemma_apart_at(left(f), t, t);
    lemma_apart_at(right(f), t, t);
    // the two roots are as the first step left them
    lemma_agree_off2_at(s3, s4, left(f), left(t), t);
    lemma_agree_off2_at(s4, s5, right(f), right(t), t);
    lemma_agree_off2_at(s3, s4, left(f), left(t), f);
    lemma_agree_off2_at(s4, s5, right(f), right(t), f);
    // the second move left the result of the first alone
    lemma_off2_gives_on(s4, s5, right(f), right(t), left(t));
    lemma_off2_gives_on(s4, s5, right(f), right(t), left(f));
    lemma_agree_transfers(s4, s5, left(t));
    lemma_agree_transfers(s4, s5, left(f));
    lemma_tree_agree(s4, s5, left(t));
    lemma_tree_unfold(s5, t);
    lemma_tree_unfold(s0, f);
    lemma_clean_from_children(s5, t);
    lemma_empty_from_children(s5, f);
    // nothing outside the two subtrees changed
    assert(in_subtree(left(f), f)) by {
        assert(in_subtree(left(f), left(f)));
        lemma_subtree_of_child(left(f), f);
    }
    assert(in_subtree(right(f), f)) by {
        assert(in_subtree(right(f), right(f)));
        lemma_subtree_of_child(right(f), f);
    }
    assert(in_subtree(left(t), t)) by {
        assert(in_subtree(left(t), left(t)));
        lemma_subtree_of_child(left(t), t);
    }
    assert(in_subtree(right(t), t)) by {
        assert(in_subtree(right(t), right(t)));
        lemma_subtree_of_child(right(t), t);
    }
    lemma_off2_widen(s3, s4, left(f), left(t), f, t);
    lemma_off2_widen(s4, s5, right(f), right(t), f, t);
    lemma_agree_off2_trans(s0, s3, s4, f, t);
    lemma_agree_off2_trans(s0, s4, s5, f, t);
}

/// The children of a slot lie in its subtree, and each is the root of its own.
pub proof fn lemma_children_under(i: int)
    requires
        0 <= i,
    ensures
        in_subtree(i, i),
        in_subtree(left(i), i),
        in_subtree(right(i), i),
        in_subtree(left(i), left(i)),
        in_subtree(right(i), right(i)),
{
    assert(in_subtree(left(i), left(i)));
    assert(in_subtree(right(i), right(i)));
    lemma_subtree_of_child(left(i), i);
    lemma_subtree_of_child(right(i), i);
}

/// Once the near subtree of `f` has gone one step down, the far subtree of
/// `f` can take the place beside it.
pub proof fn lemma_shift_down_mid<V>(s0: Seq<Option<V>>, s1: Seq<Option<V>>, f: int, dir: Direction)
    requires
        0 <= f,
        clean(s0, f),
        agree_off(s0, s1, dir.near(f)),
    ensures
        apart(dir.far(f), dir.far(dir.near(f))),
        clean(s1, dir.far(f)),
        tree_of(s1, dir.far(f)) == tree_of(s0, dir.far(f)),
{
    let t = dir.near(f);
    let o = dir.far(f);
    lemma_children_apart(f);
    lemma_apart_grid(o, t);
    lemma_clean_children(s0, f);
    lemma_off_gives_on(s0, s1, t, o);
    lemma_agree_transfers(s0, s1, o);
    lemma_tree_agree(s0, s1, o);
}

/// Once both subtrees of `f` have gone and its value has followed, the whole
/// subtree stands one step down on the side `dir`.
pub proof fn lemma_shift_down_end<V>(
    s0: Seq<Option<V>>,
    s1: Seq<Option<V>>,
    s2: Seq<Option<V>>,
    s2p: Seq<Option<V>>,
    s5: Seq<Option<V>>,
    f: int,
    dir: Direction,
    x: V,
)
    requires
        0 <= f < s2p.len(),
        dir.near(f) < s2p.len(),
        cell_at(s0, f) == Some(x),
        tree_of(s1, dir.near(dir.near(f))) == tree_of(s0, dir.near(f)),
        clean(s1, dir.near(dir.near(f))),
        agree_off(s0, s1, dir.near(f)),
        tree_of(s2, dir.far(dir.near(f))) == tree_of(s0, dir.far(f)),
        clean(s2, dir.far(dir.near(f))),
        empty_below(s2, dir.far(f)),
        agree_off2(s1, s2, dir.far(f), dir.far(dir.near(f))),
        same_cells(s2, s2p),
        s5 == s2p.update(dir.near(f), Some(x)).update(f, None),
    ensures
        tree_of(s5, dir.near(f)) == tree_of(s0, f),
        clean(s5, dir.near(f)),
        cell_at(s5, f) is None,
        empty_below(s5, dir.far(f)),
        agree_off(s0, s5, f),
{
    let t = dir.near(f);
    let o = dir.far(f);
    let tt = dir.near(t);
    let to = dir.far(t);
    lemma_children_apart(f);
    lemma_children_apart(t);
    lemma_apart_grid(o, t);
    lemma_children_under(f);
    lemma_children_under(t);
    lemma_not_under_child(f);
    lemma_not_under_child(t);
    lemma_apart_at(o, t, t);
    // the near subtree, moved first, was left alone afterwards
    lemma_off2_gives_on(s1, s2, o, to, tt);
    lemma_tree_agree(s1, s2, tt);
    lemma_agree_transfers(s1, s2, tt);
    lemma_two_writes_agree(s2, s2p, t, Some(x), f, None, tt);
    lemma_two_writes_agree(s2, s2p, t, Some(x), f, None, to);
    lemma_two_writes_agree(s2, s2p, t, Some(x), f, None, o);
    lemma_tree_unfold_dir(s5, t, dir);
    lemma_tree_unfold_dir(s0, f, dir);
    lemma_clean_from_children(s5, t);
    // everything happened inside the subtree rooted at `f`
    lemma_off_within(s0, s1, t, f);
    crate::slots::lemma_subtree_trans(to, t, f);
    lemma_off2_within(s1, s2, o, to, f);
    lemma_two_writes_frame(s2, s2p, t, Some(x), f, None);
    lemma_off2_within(s2, s5, t, f, f);
    lemma_agree_off_trans(s0, s1, s2, f);
    lemma_agree_off_trans(s0, s2, s5, f);
}

/// A clean subtree with an empty root, beside an empty subtree and under an
/// empty parent, leaves the subtree of that parent empty.
pub proof fn lemma_shift_up_nothing<V>(s0: Seq<Option<V>>, f: int, dir: Direction)
    requires
        0 <= up(f),
        f == dir.near(up(f)),
        clean(s0, f),
        cell_at(s0, f) is None,
        cell_at(s0, up(f)) is None,
        empty_below(s0, dir.far(up(f))),
    ensures
        tree_of(s0, up(f)) == tree_of(s0, f),
        clean(s0, up(f)),
        agree_off(s0, s0, up(f)),
{
    lemma_clean_empty(s0, f);
    lemma_empty_from_children(s0, up(f));
    lemma_empty_is_leaf(s0, up(f));
    lemma_empty_is_leaf(s0, f);
    crate::slots::lemma_same_cells_refl(s0);
    lemma_same_cells(s0, s0, up(f));
}

/// After the value of `f` has gone up to its parent, the far subtree of `f`
/// can go to the far side of the parent.
pub proof fn lemma_shift_up_start<V>(
    s0: Seq<Option<V>>,
    s1: Seq<Option<V>>,
    f: int,
    dir: Direction,
    x: V,
)
    requires
        0 <= up(f),
        f == dir.near(up(f)),
        f < s0.len(),
        cell_at(s0, f) == Some(x),
        clean(s0, f),
        empty_below(s0, dir.far(up(f))),
        s1 == s0.update(up(f), Some(x)).update(f, None),
    ensures
        apart(dir.far(f), dir.far(up(f))),
        clean(s1, dir.far(f)),
        empty_below(s1, dir.far(up(f))),
        tree_of(s1, dir.far(f)) == tree_of(s0, dir.far(f)),
        clean(s1, dir.near(f)),
        tree_of(s1, dir.near(f)) == tree_of(s0, dir.near(f)),
        cell_at(s1, f) is None,
        cell_at(s1, up(f)) == Some(x),
        agree_off(s0, s1, up(f)),
{
    let to = up(f);
    let sib = dir.far(to);
    let nf = dir.near(f);
    let ff = dir.far(f);
    lemma_children_apart(to);
    lemma_children_apart(f);
    lemma_apart_grid(f, sib);
    lemma_children_under(to);
    lemma_children_under(f);
    lemma_not_under_child(to);
    lemma_not_under_child(f);
    lemma_apart_at(f, sib, f);
    lemma_clean_children(s0, f);
    crate::slots::lemma_same_cells_refl(s0);
    assert(!in_subtree(to, nf) && !in_subtree(to, ff));
    lemma_two_writes_agree(s0, s0, to, Some(x), f, None, nf);
    lemma_two_writes_agree(s0, s0, to, Some(x), f, None, ff);
    lemma_two_writes_agree(s0, s0, to, Some(x), f, None, sib);
    lemma_two_writes_frame(s0, s0, to, Some(x), f, None);
    lemma_off2_within(s0, s1, to, f, to);
}

/// Once the far subtree of `f` has gone, the near one can go up into `f`.
pub proof fn lemma_shift_up_mid<V>(s1: Seq<Option<V>>, s2: Seq<Option<V>>, f: int, dir: Direction)
    requires
        0 <= up(f),
        f == dir.near(up(f)),
        clean(s1, dir.near(f)),
        cell_at(s1, f) is None,
        agree_off2(s1, s2, dir.far(f), dir.far(up(f))),
    ensures
        clean(s2, dir.near(f)),
        tree_of(s2, dir.near(f)) == tree_of(s1, dir.near(f)),
        cell_at(s2, f) is None,
        up(dir.near(f)) == f,
        crate::index::side_of(dir.near(f)) == dir,
        crate::index::sibling(dir.near(f)) == dir.far(f),
{
    let to = up(f);
    let sib = dir.far(to);
    let nf = dir.near(f);
    let ff = dir.far(f);
    lemma_children_apart(to);
    lemma_children_apart(f);
    lemma_apart_grid(f, sib);
    lemma_not_under_child(f);
    lemma_apart_at(f, sib, f);
    lemma_off2_gives_on(s1, s2, ff, sib, nf);
    lemma_agree_transfers(s1, s2, nf);
    lemma_tree_agree(s1, s2, nf);
    lemma_agree_off2_at(s1, s2, ff, sib, f);
}

/// Once both subtrees of `f` have gone, the whole subtree stands at the
/// parent of `f`.
pub proof fn lemma_shift_up_end<V>(
    s0: Seq<Option<V>>,
    s1: Seq<Option<V>>,
    s2: Seq<Option<V>>,
    s3: Seq<Option<V>>,
    f: int,
    dir: Direction,
    x: V,
)
    requires
        0 <= up(f),
        f == dir.near(up(f)),
        cell_at(s0, f) == Some(x),
        cell_at(s1, up(f)) == Some(x),
        agree_off(s0, s1, up(f)),
        tree_of(s2, dir.far(up(f))) == tree_of(s0, dir.far(f)),
        clean(s2, dir.far(up(f))),
        agree_off2(s1, s2, dir.far(f), dir.far(up(f))),
        tree_of(s3, f) == tree_of(s0, dir.near(f)),
        clean(s3, f),
        agree_off(s2, s3, f),
    ensures
        tree_of(s3, up(f)) == tree_of(s0, f),
        clean(s3, up(f)),
        agree_off(s0, s3, up(f)),
{
    let to = up(f);
    let sib = dir.far(to);
    let nf = dir.near(f);
    let ff = dir.far(f);
    lemma_children_apart(to);
    lemma_apart_grid(f, sib);
    lemma_children_under(to);
    lemma_children_under(f);
    lemma_not_under_child(to);
    lemma_apart_at(f, sib, f);
    // the parent kept the value through both moves
    assert(!in_subtree(to, ff)) by {
        if in_subtree(to, ff) {
            lemma_subtree_of_child(to, f);
        }
    }
    lemma_agree_off2_at(s1, s2, ff, sib, to);
    lemma_agree_off_at(s2, s3, f, to);
    // the far side was left alone by the last move
    lemma_off_gives_on(s2, s3, f, sib);
    lemma_tree_agree(s2, s3, sib);
    lemma_agree_transfers(s2, s3, sib);
    lemma_tree_unfold_dir(s3, to, dir);
    lemma_tree_unfold_dir(s0, f, dir);
    lemma_clean_from_children(s3, to);
    // everything happened inside the subtree rooted at the parent
    crate::slots::lemma_subtree_trans(ff, f, to);
    lemma_off2_within(s1, s2, ff, sib, to);
    lemma_off_within(s2, s3, f, to);
    lemma_agree_off_trans(s0, s1, s2, to);
    lemma_agree_off_trans(s0, s2, s3, to);
}

/// Once the near subtree of the pivot `p` has gone down, the subtree between
/// the pivot and its far child can cross over.
pub proof fn lemma_rotate_mid<V>(s0: Seq<Option<V>>, s1: Seq<Option<V>>, p: int, dir: Direction)
    requires
        0 <= p,
        clean(s0, p),
        agree_off(s0, s1, dir.near(p)),
    ensures
        apart(dir.near(dir.far(p)), dir.far(dir.near(p))),
        clean(s1, dir.near(dir.far(p))),
        tree_of(s1, dir.near(dir.far(p))) == tree_of(s0, dir.near(dir.far(p))),
        cell_at(s1, p) == cell_at(s0, p),
        cell_at(s1, dir.far(p)) == cell_at(s0, dir.far(p)),
{
    let t = dir.near(p);
    let a = dir.far(p);
    lemma_children_apart(p);
    lemma_apart_grid(a, t);
    lemma_clean_children(s0, p);
    lemma_clean_children(s0, a);
    lemma_off_gives_on(s0, s1, t, dir.near(a));
    lemma_agree_transfers(s0, s1, dir.near(a));
    lemma_tree_agree(s0, s1, dir.near(a));
    lemma_not_under_child(p);
    lemma_apart_at(a, t, a);
    lemma_agree_off_at(s0, s1, t, p);
    lemma_agree_off_at(s0, s1, t, a);
}

/// After the pivot has been demoted and its far child promoted, the
/// demoted pivot roots its new subtree and the last subtree can go up.
pub proof fn lemma_rotate_writes<V>(
    s0: Seq<Option<V>>,
    s1: Seq<Option<V>>,
    s2: Seq<Option<V>>,
    s2p: Seq<Option<V>>,
    s3: Seq<Option<V>>,
    p: int,
    dir: Direction,
    xt: V,
)
    requires
        0 <= p,
        clean(s0, p),
        tree_of(s1, dir.near(dir.near(p))) == tree_of(s0, dir.near(p)),
        clean(s1, dir.near(dir.near(p))),
        agree_off(s0, s1, dir.near(p)),
        tree_of(s2, dir.far(dir.near(p))) == tree_of(s0, dir.near(dir.far(p))),
        clean(s2, dir.far(dir.near(p))),
        empty_below(s2, dir.near(dir.far(p))),
        agree_off2(s1, s2, dir.near(dir.far(p)), dir.far(dir.near(p))),
        same_cells(s2, s2p),
        same_but(s2p, s3, dir.near(p), p, dir.far(p)),
        cell_at(s3, dir.near(p)) == Some(xt),
        cell_at(s3, dir.far(p)) is None,
    ensures
        tree_of(s3, dir.near(p)) == Tree::join(
            dir,
            tree_of(s0, dir.near(p)),
            xt,
            tree_of(s0, dir.near(dir.far(p))),
        ),
        clean(s3, dir.near(p)),
        clean(s3, dir.far(dir.far(p))),
        tree_of(s3, dir.far(dir.far(p))) == tree_of(s0, dir.far(dir.far(p))),
        empty_below(s3, dir.near(dir.far(p))),
        agree_off(s0, s3, p),
        tree_of(s2p, dir.near(dir.near(p))) == tree_of(s0, dir.near(p)),
        tree_of(s2p, dir.far(dir.near(p))) == tree_of(s0, dir.near(dir.far(p))),
        tree_of(s2p, dir.far(dir.far(p))) == tree_of(s0, dir.far(dir.far(p))),
        cell_at(s2p, dir.far(p)) == cell_at(s0, dir.far(p)),
        up(dir.far(dir.far(p))) == dir.far(p),
        crate::index::sibling(dir.far(dir.far(p))) == dir.near(dir.far(p)),
{
    let t = dir.near(p);
    let a = dir.far(p);
    let tt = dir.near(t);
    let tf = dir.far(t);
    let an = dir.near(a);
    let af = dir.far(a);
    lemma_children_apart(p);
    lemma_children_apart(t);
    lemma_children_apart(a);
    lemma_apart_grid(a, t);
    lemma_children_under(p);
    lemma_children_under(t);
    lemma_children_under(a);
    lemma_not_under_child(p);
    lemma_not_under_child(t);
    lemma_not_under_child(a);
    lemma_apart_at(a, t, a);
    lemma_apart_at(a, t, t);
    lemma_clean_children(s0, p);
    lemma_clean_children(s0, a);
    assert(!in_subtree(a, tt) && !in_subtree(a, tf)) by {
        if in_subtree(a, tt) || in_subtree(a, tf) {
            lemma_subtree_of_child(a, t);
        }
    }
    assert(!in_subtree(t, an) && !in_subtree(t, af)) by {
        if in_subtree(t, an) || in_subtree(t, af) {
            lemma_subtree_of_child(t, a);
        }
    }
    assert(!in_subtree(p, tt) && !in_subtree(p, tf) && !in_subtree(p, an) && !in_subtree(p, af));
    // the near subtree of the pivot, one step down
    lemma_off2_gives_on(s1, s2, an, tf, tt);
    lemma_tree_agree(s1, s2, tt);
    lemma_agree_transfers(s1, s2, tt);
    lemma_same_cells(s2, s2p, tt);
    lemma_same_but_agree_on(s2p, s3, t, p, a, tt);
    // the subtree that crossed over
    lemma_same_cells(s2, s2p, tf);
    lemma_same_but_agree_on(s2p, s3, t, p, a, tf);
    lemma_tree_unfold_dir(s3, t, dir);
    lemma_clean_from_children(s3, t);
    // the place it left
    lemma_same_cells(s2, s2p, an);
    lemma_same_but_agree_on(s2p, s3, t, p, a, an);
    // the far subtree of the far child, still where it was
    lemma_off_gives_on(s0, s1, t, af);
    lemma_off2_gives_on(s1, s2, an, tf, af);
    lemma_tree_agree(s0, s1, af);
    lemma_tree_agree(s1, s2, af);
    lemma_agree_transfers(s0, s1, af);
    lemma_agree_transfers(s1, s2, af);
    lemma_same_cells(s2, s2p, af);
    lemma_same_but_agree_on(s2p, s3, t, p, a, af);
    // the far child itself was not touched before the writes
    lemma_agree_off_at(s0, s1, t, a);
    assert(!in_subtree(a, an));
    lemma_agree_off2_at(s1, s2, an, tf, a);
    crate::slots::lemma_same_cells_at(s2, s2p, a);
    // everything happened inside the subtree rooted at the pivot
    lemma_off_within(s0, s1, t, p);
    crate::slots::lemma_subtree_trans(an, a, p);
    crate::slots::lemma_subtree_trans(tf, t, p);
    lemma_off2_within(s1, s2, an, tf, p);
    lemma_same_cells(s2, s2p, p);
    lemma_same_but_agree_off(s2p, s3, t, p, a, p);
    lemma_agree_off_trans(s0, s1, s2, p);
    lemma_agree_off_trans(s0, s2, s2p, p);
    lemma_agree_off_trans(s0, s2p, s3, p);
}

/// Once the last subtree has gone up, the rotation is complete.
pub proof fn lemma_rotate_end<V>(
    s0: Seq<Option<V>>,
    s3: Seq<Option<V>>,
    s4: Seq<Option<V>>,
    p: int,
    dir: Direction,
)
    requires
        0 <= p,
        clean(s3, dir.near(p)),
        agree_off(s0, s3, p),
        clean(s4, dir.far(p)),
        agree_off(s3, s4, dir.far(p)),
    ensures
        tree_of(s4, dir.near(p)) == tree_of(s3, dir.near(p)),
        clean(s4, dir.near(p)),
        cell_at(s4, p) == cell_at(s3, p),
        agree_off(s0, s4, p),
        cell_at(s4, p) is Some ==> clean(s4, p) && tree_of(s4, p) == Tree::join(
            dir,
            tree_of(s4, dir.near(p)),
            cell_at(s4, p).unwrap(),
            tree_of(s4, dir.far(p)),
        ),
{
    let t = dir.near(p);
    let a = dir.far(p);
    lemma_children_apart(p);
    lemma_children_under(p);
    lemma_not_under_child(p);
    lemma_off_gives_on(s3, s4, a, t);
    lemma_tree_agree(s3, s4, t);
    lemma_agree_transfers(s3, s4, t);
    lemma_agree_off_at(s3, s4, a, p);
    lemma_off_within(s3, s4, a, p);
    lemma_agree_off_trans(s0, s3, s4, p);
    if cell_at(s4, p) is Some {
        lemma_clean_from_children(s4, p);
        lemma_tree_unfold_dir(s4, p, dir);
    }
}

/// A change within the subtree of the child of `p` away from `dir` leaves
/// `p` and its other subtree as they were; where that child roots a clean
/// subtree afterwards, so does `p`.
pub proof fn lemma_hold_beside<V>(s0: Seq<Option<V>>, s1: Seq<Option<V>>, p: int, dir: Direction)
    requires
        0 <= p,
        cell_at(s0, p) is Some,
        clean(s0, p),
        agree_off(s0, s1, dir.far(p)),
        clean(s1, dir.far(p)),
    ensures
        cell_at(s1, p) == cell_at(s0, p),
        tree_of(s1, dir.near(p)) == tree_of(s0, dir.near(p)),
        clean(s1, dir.near(p)),
        clean(s1, p),
{
    lemma_children_apart(p);
    lemma_not_under_child(p);
    lemma_clean_children(s0, p);
    lemma_agree_off_at(s0, s1, dir.far(p), p);
    lemma_off_gives_on(s0, s1, dir.far(p), dir.near(p));
    lemma_tree_agree(s0, s1, dir.near(p));
    lemma_agree_transfers(s0, s1, dir.near(p));
    lemma_clean_from_children(s1, p);
}

} // verus!
