use vstd::prelude::*;
use crate::index::{
    capacity_of, left, left_child, lemma_capacity_monotonic, right, right_child, MAX_HEIGHT,
};
use crate::shape::Tree;
use crate::slots::{lemma_height_fits, tree_of};

verus! {

/// Index of the leftmost slot `d` levels below slot `i`.
pub open spec fn leftmost(i: int, d: nat) -> int
    decreases d,
{
    if d == 0 {
        i
    } else {
        leftmost(left(i), (d - 1) as nat)
    }
}

/// The leftmost slot one level further down is the left child of the
/// leftmost slot.
pub proof fn lemma_leftmost_step(i: int, d: nat)
    ensures
        leftmost(i, d + 1) == left(leftmost(i, d)),
    decreases d,
{
    if d > 0 {
        lemma_leftmost_step(left(i), (d - 1) as nat);
        assert(leftmost(i, d + 1) == leftmost(left(i), d));
        assert(leftmost(i, d) == leftmost(left(i), (d - 1) as nat));
    } else {
        assert(leftmost(i, 1) == leftmost(left(i), 0));
    }
}

/// Of two slots the later one has the later leftmost slot below it.
pub proof fn lemma_leftmost_monotonic(a: int, b: int, d: nat)
    requires
        a <= b,
    ensures
        leftmost(a, d) <= leftmost(b, d),
    decreases d,
{
    if d > 0 {
        lemma_leftmost_monotonic(left(a), left(b), (d - 1) as nat);
    }
}

/// A tree whose leftmost slot `d` levels down lies outside the array has at
/// most `d` levels.
pub proof fn lemma_height_by_leftmost<V>(s: Seq<Option<V>>, i: int, d: nat)
    requires
        0 <= i,
        s.len() <= leftmost(i, d),
    ensures
        tree_of(s, i).height() <= d,
    decreases d,
{
    if d > 0 {
        lemma_leftmost_monotonic(left(i), right(i), (d - 1) as nat);
        lemma_height_by_leftmost(s, left(i), (d - 1) as nat);
        lemma_height_by_leftmost(s, right(i), (d - 1) as nat);
    }
}

/// What slot `idx` holds; a slot outside the array holds nothing.
pub fn slot<T: Copy>(slots: &Vec<Option<T>>, idx: usize) -> (r: Option<T>)
    ensures
        r == crate::slots::cell_at(slots@, idx as int),
{
    if idx < slots.len() {
        slots[idx]
    } else {
        None
    }
}

/// Appends to `out` the values of the tree at slot `idx`, root first.
pub fn pre_order_into<T: Copy>(slots: &Vec<Option<T>>, idx: usize, out: &mut Vec<T>)
    ensures
        final(out)@ == old(out)@ + tree_of(slots@, idx as int).pre_order(),
    decreases
        (if idx < slots.len() {
            slots.len() - idx
        } else {
            0
        }),
{
    match slot(slots, idx) {
        None => {
            assert(old(out)@ + Seq::<T>::empty() =~= old(out)@);
        },
        Some(v) => {
            if idx <= (usize::MAX - 2) / 2 {
                out.push(v);
                pre_order_into(slots, left_child(idx), out);
                pre_order_into(slots, right_child(idx), out);
                assert(out@ =~= old(out)@ + tree_of(slots@, idx as int).pre_order());
            } else {
                out.push(v);
                assert(tree_of(slots@, left(idx as int)) == Tree::<T>::Leaf);
                assert(tree_of(slots@, right(idx as int)) == Tree::<T>::Leaf);
                assert(tree_of(slots@, left(idx as int)).pre_order() =~= Seq::<T>::empty());
                assert(tree_of(slots@, right(idx as int)).pre_order() =~= Seq::<T>::empty());
                assert(out@ =~= old(out)@ + tree_of(slots@, idx as int).pre_order());
            }
        },
    }
}

/// Appends to `out` the values of the tree at slot `idx`, in order.
pub fn in_order_into<T: Copy>(slots: &Vec<Option<T>>, idx: usize, out: &mut Vec<T>)
    ensures
        final(out)@ == old(out)@ + tree_of(slots@, idx as int).in_order(),
    decreases
        (if idx < slots.len() {
            slots.len() - idx
        } else {
            0
        }),
{
    match slot(slots, idx) {
        None => {
            assert(old(out)@ + Seq::<T>::empty() =~= old(out)@);
        },
        Some(v) => {
            if idx <= (usize::MAX - 2) / 2 {
                in_order_into(slots, left_child(idx), out);
                out.push(v);
                in_order_into(slots, right_child(idx), out);
                assert(out@ =~= old(out)@ + tree_of(slots@, idx as int).in_order());
            } else {
                out.push(v);
                assert(tree_of(slots@, left(idx as int)) == Tree::<T>::Leaf);
                assert(tree_of(slots@, right(idx as int)) == Tree::<T>::Leaf);
                assert(tree_of(slots@, left(idx as int)).in_order() =~= Seq::<T>::empty());
                assert(tree_of(slots@, right(idx as int)).in_order() =~= Seq::<T>::empty());
                assert(out@ =~= old(out)@ + tree_of(slots@, idx as int).in_order());
            }
        },
    }
}

/// Appends to `out` the values of the tree at slot `idx`, root last.
pub fn post_order_into<T: Copy>(slots: &Vec<Option<T>>, idx: usize, out: &mut Vec<T>)
    ensures
        final(out)@ == old(out)@ + tree_of(slots@, idx as int).post_order(),
    decreases
        (if idx < slots.len() {
            slots.len() - idx
        } else {
            0
        }),
{
    match slot(slots, idx) {
        None => {
            assert(old(out)@ + Seq::<T>::empty() =~= old(out)@);
        },
        Some(v) => {
            if idx <= (usize::MAX - 2) / 2 {
                post_order_into(slots, left_child(idx), out);
                post_order_into(slots, right_child(idx), out);
                out.push(v);
                assert(out@ =~= old(out)@ + tree_of(slots@, idx as int).post_order());
            } else {
                out.push(v);
                assert(tree_of(slots@, left(idx as int)) == Tree::<T>::Leaf);
                assert(tree_of(slots@, right(idx as int)) == Tree::<T>::Leaf);
                assert(tree_of(slots@, left(idx as int)).post_order() =~= Seq::<T>::empty());
                assert(tree_of(slots@, right(idx as int)).post_order() =~= Seq::<T>::empty());
                assert(out@ =~= old(out)@ + tree_of(slots@, idx as int).post_order());
            }
        },
    }
}

/// Appends to `out` the values that the tree at slot `idx` has `depth`
/// levels below its root, from left to right.
pub fn at_depth_into<T: Copy>(slots: &Vec<Option<T>>, idx: usize, depth: usize, out: &mut Vec<T>)
    ensures
        final(out)@ == old(out)@ + tree_of(slots@, idx as int).at_depth(depth as nat),
    decreases depth,
{
    match slot(slots, idx) {
        None => {
            assert(old(out)@ + Seq::<T>::empty() =~= old(out)@);
        },
        Some(v) => {
            if depth == 0 {
                out.push(v);
                assert(out@ =~= old(out)@ + tree_of(slots@, idx as int).at_depth(0));
            } else if idx <= (usize::MAX - 2) / 2 {
                at_depth_into(slots, left_child(idx), depth - 1, out);
                at_depth_into(slots, right_child(idx), depth - 1, out);
                assert(out@ =~= old(out)@ + tree_of(slots@, idx as int).at_depth(depth as nat));
            } else {
                let len: usize = slots.len();
                assert(left(idx as int) >= len);
                assert(tree_of(slots@, left(idx as int)) == Tree::<T>::Leaf);
                assert(tree_of(slots@, right(idx as int)) == Tree::<T>::Leaf);
                assert(tree_of(slots@, left(idx as int)).at_depth((depth - 1) as nat)
                    =~= Seq::<T>::empty());
                assert(tree_of(slots@, right(idx as int)).at_depth((depth - 1) as nat)
                    =~= Seq::<T>::empty());
                assert(tree_of(slots@, idx as int).at_depth(depth as nat) =~= Seq::<T>::empty());
                assert(old(out)@ + Seq::<T>::empty() =~= old(out)@);
            }
        },
    }
}

/// The values of the tree at slot `idx`, root first.
pub fn pre_order_of<T: Copy>(slots: &Vec<Option<T>>, idx: usize) -> (r: Vec<T>)
    ensures
        r@ == tree_of(slots@, idx as int).pre_order(),
{
    let mut out: Vec<T> = Vec::new();
    pre_order_into(slots, idx, &mut out);
    assert(Seq::<T>::empty() + tree_of(slots@, idx as int).pre_order() =~= tree_of(
        slots@,
        idx as int,
    ).pre_order());
    out
}

/// The values of the tree at slot `idx`, in order.
pub fn in_order_of<T: Copy>(slots: &Vec<Option<T>>, idx: usize) -> (r: Vec<T>)
    ensures
        r@ == tree_of(slots@, idx as int).in_order(),
{
    let mut out: Vec<T> = Vec::new();
    in_order_into(slots, idx, &mut out);
    assert(Seq::<T>::empty() + tree_of(slots@, idx as int).in_order() =~= tree_of(
        slots@,
        idx as int,
    ).in_order());
    out
}

/// The values of the tree at slot `idx`, root last.
pub fn post_order_of<T: Copy>(slots: &Vec<Option<T>>, idx: usize) -> (r: Vec<T>)
    ensures
        r@ == tree_of(slots@, idx as int).post_order(),
{
    let mut out: Vec<T> = Vec::new();
    post_order_into(slots, idx, &mut out);
    assert(Seq::<T>::empty() + tree_of(slots@, idx as int).post_order() =~= tree_of(
        slots@,
        idx as int,
    ).post_order());
    out
}

/// The values of the tree at slot `idx`, level by level.
pub fn breadth_first_of<T: Copy>(slots: &Vec<Option<T>>, idx: usize) -> (r: Vec<T>)
    ensures
        r@ == tree_of(slots@, idx as int).breadth_first(),
{
    let mut out: Vec<T> = Vec::new();
    let mut first: usize = idx;
    let mut depth: usize = 0;
    let ghost tree = tree_of(slots@, idx as int);
    while first < slots.len()
        invariant
            first == leftmost(idx as int, depth as nat),
            out@ == tree.levels(depth as nat),
            tree == tree_of(slots@, idx as int),
            depth <= first,
        decreases
            (if first < slots.len() {
                slots.len() - first
            } else {
                0
            }),
    {
        at_depth_into(slots, idx, depth, &mut out);
        proof {
            lemma_leftmost_step(idx as int, depth as nat);
        }
        if first > (usize::MAX - 1) / 2 {
            proof {
                lemma_height_above(slots@, idx as int, depth as nat);
                tree.lemma_levels_beyond((depth + 1) as nat);
            }
            return out;
        }
        first = 2 * first + 1;
        depth = depth + 1;
    }
    proof {
        lemma_height_by_leftmost(slots@, idx as int, depth as nat);
        tree.lemma_levels_beyond(depth as nat);
    }
    out
}

/// A tree whose leftmost slot `d` levels down has no child in the array has
/// at most `d + 1` levels.
pub proof fn lemma_height_above<V>(s: Seq<Option<V>>, i: int, d: nat)
    requires
        0 <= i,
        s.len() <= left(leftmost(i, d)),
    ensures
        tree_of(s, i).height() <= d + 1,
{
    lemma_leftmost_step(i, d);
    lemma_height_by_leftmost(s, i, d + 1);
}

/// A tree has no more nodes than a complete tree of its height, and no
/// more leaves or nodes with two children than nodes.
pub proof fn lemma_size_by_height<V>(tree: Tree<V>)
    ensures
        tree.size() <= capacity_of(tree.height()),
        tree.leaves() <= tree.size(),
        tree.full_nodes() <= tree.size(),
    decreases tree,
{
    match tree {
        Tree::Leaf => {},
        Tree::Node(l, _, r) => {
            lemma_size_by_height(*l);
            lemma_size_by_height(*r);
            lemma_capacity_monotonic(l.height(), (tree.height() - 1) as nat);
            lemma_capacity_monotonic(r.height(), (tree.height() - 1) as nat);
        },
    }
}

/// In an array of at most `2^31 - 1` slots no tree has more nodes than that.
pub proof fn lemma_size_limit<V>(s: Seq<Option<V>>, i: int)
    requires
        0 <= i,
        s.len() <= 0x7fff_ffff,
    ensures
        tree_of(s, i).size() <= 0x7fff_ffff,
        tree_of(s, i).height() <= MAX_HEIGHT,
{
    reveal_with_fuel(capacity_of, 32);
    assert(capacity_of(31) == 0x7fff_ffff);
    lemma_height_fits(s, i, 31);
    lemma_size_by_height(tree_of(s, i));
    lemma_capacity_monotonic(tree_of(s, i).height(), 31);
}

/// Number of nodes of the tree at slot `idx`.
pub fn size_of<T: Copy>(slots: &Vec<Option<T>>, idx: usize) -> (r: usize)
    requires
        slots.len() <= 0x7fff_ffff,
    ensures
        r == tree_of(slots@, idx as int).size(),
        r <= 0x7fff_ffff,
    decreases
        (if idx < slots.len() {
            slots.len() - idx
        } else {
            0
        }),
{
    proof {
        lemma_size_limit(slots@, idx as int);
    }
    match slot(slots, idx) {
        None => 0,
        Some(_) => {
            let l = size_of(slots, left_child(idx));
            let r = size_of(slots, right_child(idx));
            l + 1 + r
        },
    }
}

/// Number of nodes without a child of the tree at slot `idx`.
pub fn leaves_of<T: Copy>(slots: &Vec<Option<T>>, idx: usize) -> (r: usize)
    requires
        slots.len() <= 0x7fff_ffff,
    ensures
        r == tree_of(slots@, idx as int).leaves(),
        r <= 0x7fff_ffff,
    decreases
        (if idx < slots.len() {
            slots.len() - idx
        } else {
            0
        }),
{
    proof {
        lemma_size_limit(slots@, idx as int);
        lemma_size_by_height(tree_of(slots@, idx as int));
    }
    match slot(slots, idx) {
        None => 0,
        Some(_) => {
            let l = left_child(idx);
            let r = right_child(idx);
            if slot(slots, l).is_none() && slot(slots, r).is_none() {
                1
            } else {
                leaves_of(slots, l) + leaves_of(slots, r)
            }
        },
    }
}

/// Number of nodes with two children of the tree at slot `idx`.
pub fn full_nodes_of<T: Copy>(slots: &Vec<Option<T>>, idx: usize) -> (r: usize)
    requires
        slots.len() <= 0x7fff_ffff,
    ensures
        r == tree_of(slots@, idx as int).full_nodes(),
        r <= 0x7fff_ffff,
    decreases
        (if idx < slots.len() {
            slots.len() - idx
        } else {
            0
        }),
{
    proof {
        lemma_size_limit(slots@, idx as int);
        lemma_size_by_height(tree_of(slots@, idx as int));
    }
    match slot(slots, idx) {
        None => 0,
        Some(_) => {
            let l = left_child(idx);
            let r = right_child(idx);
            let below = full_nodes_of(slots, l) + full_nodes_of(slots, r);
            if slot(slots, l).is_some() && slot(slots, r).is_some() {
                below + 1
            } else {
                below
            }
        },
    }
}

/// Number of levels of the tree at slot `idx`.
pub fn height_of<T: Copy>(slots: &Vec<Option<T>>, idx: usize) -> (r: usize)
    requires
        slots.len() <= 0x7fff_ffff,
    ensures
        r == tree_of(slots@, idx as int).height(),
        r <= MAX_HEIGHT,
    decreases
        (if idx < slots.len() {
            slots.len() - idx
        } else {
            0
        }),
{
    proof {
        lemma_size_limit(slots@, idx as int);
    }
    match slot(slots, idx) {
        None => 0,
        Some(_) => {
            let l = height_of(slots, left_child(idx));
            let r = height_of(slots, right_child(idx));
            if l >= r {
                l + 1
            } else {
                r + 1
            }
        },
    }
}

} // verus!
