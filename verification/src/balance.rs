use vstd::prelude::*;
use crate::index::Direction;
use crate::moves::lemma_tree_unfold_dir;
use crate::order::Ordered;
use crate::shape::Tree;
use crate::slots::{agree_off, cell_at, clean, lemma_clean_from_children, tree_of};

verus! {

/// The counter kept at the root of `tree`, 0 for an empty tree.
pub open spec fn stored<T>(tree: Tree<(T, u32)>) -> u32 {
    match tree {
        Tree::Leaf => 0,
        Tree::Node(_, p, _) => p.1,
    }
}

/// One more than the larger of two counters, as far as 32 bits can hold it.
pub open spec fn above(a: u32, b: u32) -> u32 {
    let m = if a >= b {
        a
    } else {
        b
    };
    if m < u32::MAX {
        (m + 1) as u32
    } else {
        m
    }
}

/// The values of a tree of counted nodes, in order.
pub open spec fn keys<T>(tree: Tree<(T, u32)>) -> Seq<T>
    decreases tree,
{
    match tree {
        Tree::Leaf => Seq::empty(),
        Tree::Node(l, p, r) => keys(*l) + seq![p.0] + keys(*r),
    }
}

/// The tree of the values alone.
pub open spec fn strip<T>(tree: Tree<(T, u32)>) -> Tree<T>
    decreases tree,
{
    match tree {
        Tree::Leaf => Tree::Leaf,
        Tree::Node(l, p, r) => Tree::Node(Box::new(strip(*l)), p.0, Box::new(strip(*r))),
    }
}

/// The values of a tree of counted nodes are those of the tree of its
/// values, and the two trees have one shape.
pub proof fn lemma_strip<T>(tree: Tree<(T, u32)>)
    ensures
        keys(tree) == strip(tree).in_order(),
        strip(tree).height() == tree.height(),
        strip(tree).size() == tree.size(),
    decreases tree,
{
    match tree {
        Tree::Leaf => {},
        Tree::Node(l, _, r) => {
            lemma_strip(*l);
            lemma_strip(*r);
        },
    }
}

/// Every node carries the height of its subtree as its counter.
pub open spec fn counted<T>(tree: Tree<(T, u32)>) -> bool
    decreases tree,
{
    match tree {
        Tree::Leaf => true,
        Tree::Node(l, p, r) => p.1 == tree.height() && counted(*l) && counted(*r),
    }
}

/// At every node the heights of the two subtrees differ by at most one.
pub open spec fn balanced<V>(tree: Tree<V>) -> bool
    decreases tree,
{
    match tree {
        Tree::Leaf => true,
        Tree::Node(l, _, r) => l.height() <= r.height() + 1 && r.height() <= l.height() + 1
            && balanced(*l) && balanced(*r),
    }
}

/// The least number of nodes that a balanced tree of `h` levels can have.
pub open spec fn fewest(h: nat) -> nat
    decreases h,
{
    if h == 0 {
        0
    } else if h == 1 {
        1
    } else {
        fewest((h - 1) as nat) + fewest((h - 2) as nat) + 1
    }
}

/// The number of values up to which a balanced tree is certain to have
/// room for the next one: the least number of nodes of a balanced tree of
/// 31 levels, the highest that the height limit allows.
pub const MAX_KEYS: usize = 3_524_577;

/// A higher tree needs no fewer nodes.
pub proof fn lemma_fewest_monotonic(a: nat, b: nat)
    requires
        a <= b,
    ensures
        fewest(a) <= fewest(b),
    decreases b,
{
    if a < b {
        lemma_fewest_monotonic(a, (b - 1) as nat);
    }
}

/// A balanced tree has at least the least number of nodes for its height.
pub proof fn lemma_fewest<V>(tree: Tree<V>)
    requires
        balanced(tree),
    ensures
        tree.size() >= fewest(tree.height()),
    decreases tree,
{
    match tree {
        Tree::Leaf => {},
        Tree::Node(l, _, r) => {
            lemma_fewest(*l);
            lemma_fewest(*r);
            let h = tree.height();
            if h >= 2 {
                if l.height() >= r.height() {
                    lemma_fewest_monotonic((h - 2) as nat, r.height());
                } else {
                    lemma_fewest_monotonic((h - 2) as nat, l.height());
                }
            }
        },
    }
}

/// A balanced tree of 31 levels has at least 3 524 577 nodes.
pub proof fn lemma_fewest_at_limit()
    ensures
        fewest(31) == MAX_KEYS,
{
    assert(fewest(0) == 0);
    assert(fewest(1) == 1);
    assert(fewest(2) == 2);
    assert(fewest(3) == 4);
    assert(fewest(4) == 7);
    assert(fewest(5) == 12);
    assert(fewest(6) == 20);
    assert(fewest(7) == 33);
    assert(fewest(8) == 54);
    assert(fewest(9) == 88);
    assert(fewest(10) == 143);
    assert(fewest(11) == 232);
    assert(fewest(12) == 376);
    assert(fewest(13) == 609);
    assert(fewest(14) == 986);
    assert(fewest(15) == 1596);
    assert(fewest(16) == 2583);
    assert(fewest(17) == 4180);
    assert(fewest(18) == 6764);
    assert(fewest(19) == 10945);
    assert(fewest(20) == 17710);
    assert(fewest(21) == 28656);
    assert(fewest(22) == 46367);
    assert(fewest(23) == 75024);
    assert(fewest(24) == 121392);
    assert(fewest(25) == 196417);
    assert(fewest(26) == 317810);
    assert(fewest(27) == 514228);
    assert(fewest(28) == 832039);
    assert(fewest(29) == 1346268);
    assert(fewest(30) == 2178308);
    assert(fewest(31) == 3524577);
}

/// A tree has as many values as nodes.
pub proof fn lemma_keys_len<T>(tree: Tree<(T, u32)>)
    ensures
        keys(tree).len() == tree.size(),
    decreases tree,
{
    match tree {
        Tree::Leaf => {},
        Tree::Node(l, _, r) => {
            lemma_keys_len(*l);
            lemma_keys_len(*r);
        },
    }
}

/// A balanced tree with fewer than `MAX_KEYS` values has fewer than 31 levels.
pub proof fn lemma_height_below_limit<T>(tree: Tree<(T, u32)>)
    requires
        balanced(tree),
        keys(tree).len() < MAX_KEYS,
    ensures
        tree.height() < 31,
{
    lemma_keys_len(tree);
    lemma_fewest(tree);
    lemma_fewest_at_limit();
    if tree.height() >= 31 {
        lemma_fewest_monotonic(31, tree.height());
    }
}

/// The values never go down from one position to the next.
#[verifier::opaque]
pub open spec fn sorted<T: Ordered>(s: Seq<T>) -> bool {
    forall|i: int, j: int| 0 <= i < j < s.len() ==> s[i].rank() <= s[j].rank()
}

/// `after` is `before` with `x` put in behind the last value that is not
/// greater than `x`.
pub open spec fn placed<T: Ordered>(before: Seq<T>, after: Seq<T>, x: T) -> bool {
    exists|k: int| placed_at(before, after, x, k)
}

/// `after` is `before` with `x` put in at position `k`, behind values that
/// are not greater and before values that are.
pub open spec fn placed_at<T: Ordered>(before: Seq<T>, after: Seq<T>, x: T, k: int) -> bool {
    &&& 0 <= k <= before.len()
    &&& after == before.insert(k, x)
    &&& forall|i: int| 0 <= i < k ==> #[trigger] before[i].rank() <= x.rank()
    &&& forall|i: int| k <= i < before.len() ==> #[trigger] before[i].rank() > x.rank()
}

/// The tree that a rotation in the direction `dir` makes of `tree`: the
/// child opposite to `dir` becomes the root, the old root its child on the
/// side `dir`. A tree without that child is left as it is.
pub open spec fn rotated<T>(tree: Tree<(T, u32)>, dir: Direction) -> Tree<(T, u32)> {
    let outer = tree.child(dir);
    let heavy = tree.child(dir.flip());
    match (tree, heavy) {
        (Tree::Node(_, x, _), Tree::Node(_, h, _)) => {
            let inner = heavy.child(dir);
            let last = heavy.child(dir.flip());
            let count = above(stored(outer), stored(inner));
            Tree::join(
                dir,
                Tree::join(dir, outer, (x.0, count), inner),
                (h.0, above(count, stored(last))),
                last,
            )
        },
        _ => tree,
    }
}

/// The larger of two heights.
pub open spec fn higher(a: nat, b: nat) -> nat {
    if a >= b {
        a
    } else {
        b
    }
}

/// What a rotation at the occupied slot `p` in the direction `dir` makes of
/// the slots `before`.
///
/// The child of `p` opposite to `dir` comes up into `p`. The value of `p`
/// goes down to the side `dir`, over its former subtree on that side and the
/// subtree that the promoted child had on the side `dir`. The other subtree
/// of the promoted child comes up with it. The demoted and the promoted node
/// get the counter that their new subtrees ask for; nothing outside the
/// subtree of `p` changes.
pub open spec fn rotation_of<T>(
    before: Seq<Option<(T, u32)>>,
    after: Seq<Option<(T, u32)>>,
    p: int,
    dir: Direction,
) -> bool {
    let pivot = cell_at(before, p).unwrap();
    let outer = tree_of(before, dir.near(p));
    let inner = tree_of(before, dir.near(dir.far(p)));
    let last = tree_of(before, dir.far(dir.far(p)));
    let count = above(stored(outer), stored(inner));
    &&& tree_of(after, dir.near(p)) == Tree::join(dir, outer, (pivot.0, count), inner)
    &&& tree_of(after, dir.far(p)) == last
    &&& cell_at(after, p) == (match cell_at(before, dir.far(p)) {
        Some(r) => Some((r.0, above(count, stored(last)))),
        None => None,
    })
    &&& clean(after, dir.near(p))
    &&& clean(after, dir.far(p))
    &&& agree_off(before, after, p)
}

/// A rotation at a slot whose child opposite to `dir` is occupied turns the
/// tree at that slot into its rotated tree.
pub proof fn lemma_rotation_is_rotated<T>(
    before: Seq<Option<(T, u32)>>,
    after: Seq<Option<(T, u32)>>,
    p: int,
    dir: Direction,
)
    requires
        0 <= p,
        cell_at(before, p) is Some,
        cell_at(before, dir.far(p)) is Some,
        rotation_of(before, after, p, dir),
    ensures
        tree_of(after, p) == rotated(tree_of(before, p), dir),
        cell_at(after, p) is Some,
        clean(after, p),
{
    lemma_tree_unfold_dir(before, p, dir);
    lemma_tree_unfold_dir(before, dir.far(p), dir);
    lemma_tree_unfold_dir(after, p, dir);
    lemma_clean_from_children(after, p);
    lemma_join(
        dir,
        tree_of(before, dir.near(p)),
        cell_at(before, p).unwrap(),
        tree_of(before, dir.far(p)),
    );
    lemma_join(
        dir,
        tree_of(before, dir.near(dir.far(p))),
        cell_at(before, dir.far(p)).unwrap(),
        tree_of(before, dir.far(dir.far(p))),
    );
}

/// The tree that balancing makes of `tree`, whose side opposite to `dir`
/// is the higher one: one rotation, after a rotation of the higher side
/// where the inner part of that side has the greater counter.
pub open spec fn restored<T>(tree: Tree<(T, u32)>, dir: Direction) -> Tree<(T, u32)> {
    let heavy = tree.child(dir.flip());
    if tree is Node && stored(heavy.child(dir)) > stored(heavy.child(dir.flip())) {
        rotated(Tree::join(dir, tree.child(dir), tree->1, rotated(heavy, dir.flip())), dir)
    } else {
        rotated(tree, dir)
    }
}

/// The tree that `tree` is after its root has been looked after: where the
/// counters of its children differ by more than one, the tree is balanced
/// by rotation; else the root gets the counter that its children ask for.
pub open spec fn mended<T>(tree: Tree<(T, u32)>) -> Tree<(T, u32)> {
    match tree {
        Tree::Leaf => Tree::Leaf,
        Tree::Node(l, p, r) => if stored(*l) > stored(*r) + 1 {
            restored(tree, Direction::RIGHT)
        } else if stored(*r) > stored(*l) + 1 {
            restored(tree, Direction::LEFT)
        } else {
            Tree::Node(l, (p.0, above(stored(*l), stored(*r))), r)
        },
    }
}

/// A tree is its root joined with its two children, told from either side.
pub proof fn lemma_join_children<V>(tree: Tree<V>, dir: Direction)
    requires
        tree is Node,
    ensures
        tree == Tree::join(dir, tree.child(dir), tree->1, tree.child(dir.flip())),
{
}

/// What a joined tree is made of.
pub proof fn lemma_join<T>(dir: Direction, near: Tree<(T, u32)>, x: (T, u32), far: Tree<(T, u32)>)
    ensures
        Tree::join(dir, near, x, far) is Node,
        Tree::join(dir, near, x, far)->1 == x,
        Tree::join(dir, near, x, far).child(dir) == near,
        Tree::join(dir, near, x, far).child(dir.flip()) == far,
        Tree::join(dir, near, x, far).height() == higher(near.height(), far.height()) + 1,
        stored(Tree::join(dir, near, x, far)) == x.1,
        counted(Tree::join(dir, near, x, far)) == (x.1 == higher(near.height(), far.height()) + 1
            && counted(near) && counted(far)),
        balanced(Tree::join(dir, near, x, far)) == (near.height() <= far.height() + 1
            && far.height() <= near.height() + 1 && balanced(near) && balanced(far)),
        keys(Tree::join(dir, near, x, far)) == (match dir {
            Direction::LEFT => keys(near) + seq![x.0] + keys(far),
            Direction::RIGHT => keys(far) + seq![x.0] + keys(near),
        }),
{
}

/// The counter of a counted tree is its height.
pub proof fn lemma_stored_is_height<T>(tree: Tree<(T, u32)>)
    requires
        counted(tree),
    ensures
        stored(tree) == tree.height(),
{
}

/// A rotation keeps the values in their order.
pub proof fn lemma_rotated_keys<T>(tree: Tree<(T, u32)>, dir: Direction)
    ensures
        keys(rotated(tree, dir)) == keys(tree),
{
    let heavy = tree.child(dir.flip());
    if tree is Node && heavy is Node {
        let outer = tree.child(dir);
        let inner = heavy.child(dir);
        let last = heavy.child(dir.flip());
        let x = tree->1;
        let h = heavy->1;
        let count = above(stored(outer), stored(inner));
        lemma_join_children(tree, dir);
        lemma_join_children(heavy, dir);
        lemma_join(dir, outer, x, heavy);
        lemma_join(dir, inner, h, last);
        lemma_join(dir, outer, (x.0, count), inner);
        lemma_join(
            dir,
            Tree::join(dir, outer, (x.0, count), inner),
            (h.0, above(count, stored(last))),
            last,
        );
        assert(keys(rotated(tree, dir)) =~= keys(tree));
    }
}

/// A rotation moves the whole tree one level up on the side away from `dir`.
pub proof fn lemma_rotated_shape<T>(tree: Tree<(T, u32)>, dir: Direction)
    requires
        tree is Node,
        tree.child(dir.flip()) is Node,
    ensures
        rotated(tree, dir) is Node,
        rotated(tree, dir).child(dir.flip()) == tree.child(dir.flip()).child(dir.flip()),
        rotated(tree, dir).child(dir) is Node,
        rotated(tree, dir).child(dir).child(dir) == tree.child(dir),
        rotated(tree, dir).child(dir).child(dir.flip()) == tree.child(dir.flip()).child(dir),
        rotated(tree, dir).child(dir).height() == higher(
            tree.child(dir).height(),
            tree.child(dir.flip()).child(dir).height(),
        ) + 1,
        rotated(tree, dir).height() == higher(
            rotated(tree, dir).child(dir).height(),
            tree.child(dir.flip()).child(dir.flip()).height(),
        ) + 1,
        tree.height() == higher(tree.child(dir).height(), tree.child(dir.flip()).height()) + 1,
        tree.child(dir.flip()).height() == higher(
            tree.child(dir.flip()).child(dir).height(),
            tree.child(dir.flip()).child(dir.flip()).height(),
        ) + 1,
        balanced(rotated(tree, dir)) == (balanced(tree.child(dir)) && balanced(
            tree.child(dir.flip()).child(dir),
        ) && balanced(tree.child(dir.flip()).child(dir.flip())) && tree.child(dir).height()
            <= tree.child(dir.flip()).child(dir).height() + 1 && tree.child(dir.flip()).child(
            dir,
        ).height() <= tree.child(dir).height() + 1 && rotated(tree, dir).child(dir).height()
            <= tree.child(dir.flip()).child(dir.flip()).height() + 1 && tree.child(
            dir.flip(),
        ).child(dir.flip()).height() <= rotated(tree, dir).child(dir).height() + 1),
        balanced(rotated(tree, dir).child(dir)) == (balanced(tree.child(dir)) && balanced(
            tree.child(dir.flip()).child(dir),
        ) && tree.child(dir).height() <= tree.child(dir.flip()).child(dir).height() + 1
            && tree.child(dir.flip()).child(dir).height() <= tree.child(dir).height() + 1),
        balanced(tree.child(dir.flip())) == (balanced(tree.child(dir.flip()).child(dir))
            && balanced(tree.child(dir.flip()).child(dir.flip())) && tree.child(dir.flip()).child(
            dir,
        ).height() <= tree.child(dir.flip()).child(dir.flip()).height() + 1 && tree.child(
            dir.flip(),
        ).child(dir.flip()).height() <= tree.child(dir.flip()).child(dir).height() + 1),
{
    let heavy = tree.child(dir.flip());
    let outer = tree.child(dir);
    let inner = heavy.child(dir);
    let last = heavy.child(dir.flip());
    let x = tree->1;
    let h = heavy->1;
    let count = above(stored(outer), stored(inner));
    lemma_join_children(tree, dir);
    lemma_join_children(heavy, dir);
    lemma_join(dir, outer, x, heavy);
    lemma_join(dir, inner, h, last);
    lemma_join(dir, outer, (x.0, count), inner);
    lemma_join(
        dir,
        Tree::join(dir, outer, (x.0, count), inner),
        (h.0, above(count, stored(last))),
        last,
    );
}

/// A rotation of a tree whose subtrees are counted gives a counted tree.
pub proof fn lemma_rotated_counted<T>(tree: Tree<(T, u32)>, dir: Direction)
    requires
        tree is Node,
        tree.child(dir.flip()) is Node,
        tree.height() < u32::MAX,
        counted(tree.child(dir)),
        counted(tree.child(dir.flip()).child(dir)),
        counted(tree.child(dir.flip()).child(dir.flip())),
    ensures
        counted(rotated(tree, dir)),
{
    let heavy = tree.child(dir.flip());
    let outer = tree.child(dir);
    let inner = heavy.child(dir);
    let last = heavy.child(dir.flip());
    let x = tree->1;
    let h = heavy->1;
    let count = above(stored(outer), stored(inner));
    lemma_join_children(tree, dir);
    lemma_join_children(heavy, dir);
    lemma_join(dir, outer, x, heavy);
    lemma_join(dir, inner, h, last);
    lemma_join(dir, outer, (x.0, count), inner);
    lemma_join(
        dir,
        Tree::join(dir, outer, (x.0, count), inner),
        (h.0, above(count, stored(last))),
        last,
    );
    lemma_stored_is_height(outer);
    lemma_stored_is_height(inner);
    lemma_stored_is_height(last);
}

/// Where one side of a tree is two levels higher than the other, and its
/// outer part is no lower than its inner part, one rotation away from that
/// side restores the balance.
pub proof fn lemma_single_rotation<T>(tree: Tree<(T, u32)>, dir: Direction)
    requires
        tree is Node,
        tree.child(dir.flip()).height() == tree.child(dir).height() + 2,
        tree.child(dir.flip()).child(dir).height() <= tree.child(dir.flip()).child(
            dir.flip(),
        ).height(),
        balanced(tree.child(dir)),
        balanced(tree.child(dir.flip())),
    ensures
        balanced(rotated(tree, dir)),
        rotated(tree, dir).height() == tree.height() || rotated(tree, dir).height() + 1
            == tree.height(),
{
    lemma_rotated_shape(tree, dir);
}

/// Where one side of a tree is two levels higher than the other, and its
/// inner part is the higher one, a rotation of that side towards its outer
/// part followed by a rotation of the whole tree away from that side
/// restores the balance.
pub proof fn lemma_double_rotation<T>(tree: Tree<(T, u32)>, between: Tree<(T, u32)>, dir: Direction)
    requires
        tree is Node,
        tree.child(dir.flip()).height() == tree.child(dir).height() + 2,
        tree.child(dir.flip()).child(dir).height() > tree.child(dir.flip()).child(
            dir.flip(),
        ).height(),
        balanced(tree.child(dir)),
        balanced(tree.child(dir.flip())),
        between == Tree::join(
            dir,
            tree.child(dir),
            tree->1,
            rotated(tree.child(dir.flip()), dir.flip()),
        ),
    ensures
        between.child(dir.flip()) is Node,
        between.height() == tree.height(),
        balanced(rotated(between, dir)),
        rotated(between, dir).height() + 1 == tree.height(),
{
    let heavy = tree.child(dir.flip());
    let inner = heavy.child(dir);
    assert(dir.flip().flip() == dir);
    lemma_join_children(tree, dir);
    lemma_join(dir, tree.child(dir), tree->1, heavy);
    lemma_join_children(inner, dir);
    lemma_join(dir, inner.child(dir), inner->1, inner.child(dir.flip()));
    lemma_rotated_shape(heavy, dir.flip());
    lemma_join(dir, tree.child(dir), tree->1, rotated(heavy, dir.flip()));
    lemma_rotated_shape(between, dir);
}

/// In a sorted sequence an earlier value is not greater than a later one.
pub proof fn lemma_sorted_at<T: Ordered>(s: Seq<T>, i: int, j: int)
    requires
        sorted(s),
        0 <= i <= j < s.len(),
    ensures
        s[i].rank() <= s[j].rank(),
{
    reveal(sorted);
}

/// A sorted sequence stays sorted when a value is put in at its place.
pub proof fn lemma_placed_sorted<T: Ordered>(before: Seq<T>, after: Seq<T>, x: T)
    requires
        sorted(before),
        placed(before, after, x),
    ensures
        sorted(after),
        after.len() == before.len() + 1,
        after.to_multiset() == before.to_multiset().insert(x),
{
    reveal(sorted);
    let k = choose|k: int| placed_at(before, after, x, k);
    assert forall|i: int, j: int| 0 <= i < j < after.len() implies after[i].rank()
        <= after[j].rank() by {
        if i < k {
            assert(after[i] == before[i]);
        } else if i > k {
            assert(after[i] == before[i - 1]);
        }
        if j < k {
            assert(after[j] == before[j]);
        } else if j > k {
            assert(after[j] == before[j - 1]);
        }
    }
    assert(after.remove(k) =~= before);
    assert(after[k] == x);
    vstd::seq_lib::to_multiset_remove(after, k);
    after.to_multiset_ensures();
    assert(after.contains(x));
    assert(after.to_multiset() =~= before.to_multiset().insert(x));
}

} // verus!
