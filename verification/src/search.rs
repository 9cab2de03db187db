use vstd::prelude::*;
use crate::balance::{
    balanced, counted, keys, lemma_double_rotation, lemma_height_below_limit, lemma_join,
    lemma_join_children, lemma_rotated_counted, lemma_rotated_keys, lemma_rotated_shape,
    lemma_single_rotation, lemma_sorted_at, lemma_stored_is_height, mended, placed, placed_at,
    restored, rotated, sorted, stored, MAX_KEYS,
};
use crate::index::{left, level, right, up, Direction, MAX_HEIGHT};
use crate::order::Ordered;
use crate::shape::Tree;
use crate::slots::{cell_at, clean, lemma_all_under_root, tree_of};

verus! {

/// The child of slot `i`, which holds `v`, at which a search for `x` goes on:
/// the left one where `v` is greater than `x`, else the right one.
pub open spec fn step<T: Ordered>(v: T, x: T, i: int) -> int {
    if v.rank() > x.rank() {
        left(i)
    } else {
        right(i)
    }
}

/// The empty slot at which a search for a place for `x` ends that starts
/// at slot `i`.
pub open spec fn landing<T: Ordered>(s: Seq<Option<(T, u32)>>, x: T, i: int) -> int
    decreases
        (if i < s.len() {
            s.len() - i
        } else {
            0
        }),
{
    if 0 <= i < s.len() {
        match s[i] {
            Some(p) => landing(s, x, step(p.0, x, i)),
            None => i,
        }
    } else {
        i
    }
}

/// Slot `i` lies on the way that a search for a place for `x` takes from
/// the root: every slot above it is occupied and sends the search on
/// towards `i`.
pub open spec fn on_path<T: Ordered>(s: Seq<Option<(T, u32)>>, x: T, i: int) -> bool
    decreases i,
{
    i == 0 || (i > 0 && (match cell_at(s, up(i)) {
        Some(p) => step(p.0, x, up(i)) == i && on_path(s, x, up(i)),
        None => false,
    }))
}

/// The tree that `tree` is after `x` has come in: `x` goes down as a search
/// for its place does, becomes a node without children where the search
/// ends, and every node on the way is looked after from the bottom up.
pub open spec fn grown_with<T: Ordered>(tree: Tree<(T, u32)>, x: T) -> Tree<(T, u32)>
    decreases tree,
{
    match tree {
        Tree::Leaf => Tree::Node(Box::new(Tree::Leaf), (x, 1u32), Box::new(Tree::Leaf)),
        Tree::Node(l, p, r) => if p.0.rank() > x.rank() {
            mended(Tree::Node(Box::new(grown_with(*l, x)), p, r))
        } else {
            mended(Tree::Node(l, p, Box::new(grown_with(*r, x))))
        },
    }
}

/// The number of steps that a search for a place for `x` takes down `tree`
/// before it ends.
pub open spec fn landing_depth<T: Ordered>(tree: Tree<(T, u32)>, x: T) -> nat
    decreases tree,
{
    match tree {
        Tree::Leaf => 0,
        Tree::Node(l, p, r) => 1 + if p.0.rank() > x.rank() {
            landing_depth(*l, x)
        } else {
            landing_depth(*r, x)
        },
    }
}

/// Each of the first `n` values of `data` finds its place above the
/// height limit when they come into `tree` one after the other.
pub open spec fn room_for<T: Ordered>(tree: Tree<(T, u32)>, data: Seq<T>, n: int) -> bool
    decreases n,
{
    n <= 0 || (room_for(tree, data, n - 1) && landing_depth(
        grown_with_all(tree, data, n - 1),
        data[n - 1],
    ) < MAX_HEIGHT)
}

/// A search for a place ends no deeper than the tree is high.
pub proof fn lemma_landing_depth_bound<T: Ordered>(tree: Tree<(T, u32)>, x: T)
    ensures
        landing_depth(tree, x) <= tree.height(),
    decreases tree,
{
    match tree {
        Tree::Leaf => {},
        Tree::Node(l, _, r) => {
            lemma_landing_depth_bound(*l, x);
            lemma_landing_depth_bound(*r, x);
        },
    }
}

/// The slot at which a search for a place ends lies as many levels below
/// the slot at which it starts as the search takes steps down the tree.
pub proof fn lemma_landing_level<T: Ordered>(s: Seq<Option<(T, u32)>>, x: T, i: int)
    requires
        0 <= i,
    ensures
        level(landing(s, x, i)) == level(i) + landing_depth(tree_of(s, i), x),
    decreases
        (if i < s.len() {
            s.len() - i
        } else {
            0
        }),
{
    if i < s.len() {
        match s[i] {
            Some(p) => {
                crate::index::lemma_level_of_child(i);
                lemma_landing_level(s, x, step(p.0, x, i));
            },
            None => {},
        }
    }
}

/// The tree that `tree` is after the first `n` values of `data` have come
/// in, one after the other.
pub open spec fn grown_with_all<T: Ordered>(tree: Tree<(T, u32)>, data: Seq<T>, n: int) -> Tree<
    (T, u32),
>
    decreases n,
{
    if n <= 0 {
        tree
    } else {
        grown_with(grown_with_all(tree, data, n - 1), data[n - 1])
    }
}

/// A tree is sound where its counters are heights, it is balanced, and its
/// values are in order.
pub open spec fn sound<T: Ordered>(tree: Tree<(T, u32)>) -> bool {
    counted(tree) && balanced(tree) && sorted(keys(tree))
}

/// The children of a sound tree are sound.
pub proof fn lemma_sound_children<T: Ordered>(tree: Tree<(T, u32)>)
    requires
        sound(tree),
    ensures
        sound(tree.child(Direction::LEFT)),
        sound(tree.child(Direction::RIGHT)),
{
    match tree {
        Tree::Leaf => {},
        Tree::Node(l, p, r) => {
            let kl = keys(*l);
            let kr = keys(*r);
            let all = keys(tree);
            reveal(sorted);
            assert(all == kl + seq![p.0] + kr);
            assert forall|i: int, j: int| 0 <= i < j < kl.len() implies kl[i].rank()
                <= kl[j].rank() by {
                assert(all[i] == kl[i]);
                assert(all[j] == kl[j]);
            }
            assert forall|i: int, j: int| 0 <= i < j < kr.len() implies kr[i].rank()
                <= kr[j].rank() by {
                assert(all[kl.len() + 1 + i] == kr[i]);
                assert(all[kl.len() + 1 + j] == kr[j]);
            }
        },
    }
}

/// In clean slots that stand for a sound tree, every slot roots a sound tree.
pub proof fn lemma_sound_everywhere<T: Ordered>(s: Seq<Option<(T, u32)>>, j: int)
    requires
        clean(s, 0),
        sound(tree_of(s, 0)),
        0 <= j,
    ensures
        sound(tree_of(s, j)),
    decreases j,
{
    if j > 0 {
        lemma_sound_everywhere(s, up(j));
        lemma_all_under_root(j);
        if cell_at(s, up(j)) is Some {
            lemma_sound_children(tree_of(s, up(j)));
        } else {
            assert(cell_at(s, j) is None) by {
                reveal(clean);
            }
        }
    }
}

/// Where `x` has its place in the values of the left child of a node whose
/// value is greater than `x`, it has its place in the values of the whole tree.
pub proof fn lemma_placed_lift_left<T: Ordered>(
    before: Seq<T>,
    after: Seq<T>,
    x: T,
    v: T,
    rest: Seq<T>,
)
    requires
        placed(before, after, x),
        v.rank() > x.rank(),
        sorted(before + seq![v] + rest),
    ensures
        placed(before + seq![v] + rest, after + seq![v] + rest, x),
{
    let k = choose|k: int| placed_at(before, after, x, k);
    let whole = before + seq![v] + rest;
    let grown = after + seq![v] + rest;
    let n = before.len() as int;
    assert(whole[n] == v);
    assert(grown =~= whole.insert(k, x));
    assert forall|i: int| k <= i < whole.len() implies #[trigger] whole[i].rank() > x.rank() by {
        if i < n {
            assert(whole[i] == before[i]);
        } else {
            lemma_sorted_at(whole, n, i);
        }
    }
    assert forall|i: int| 0 <= i < k implies #[trigger] whole[i].rank() <= x.rank() by {
        assert(whole[i] == before[i]);
    }
    assert(placed_at(whole, grown, x, k));
}

/// Where `x` has its place in the values of the right child of a node whose
/// value is not greater than `x`, it has its place in the values of the
/// whole tree.
pub proof fn lemma_placed_lift_right<T: Ordered>(
    before: Seq<T>,
    after: Seq<T>,
    x: T,
    v: T,
    rest: Seq<T>,
)
    requires
        placed(before, after, x),
        v.rank() <= x.rank(),
        sorted(rest + seq![v] + before),
    ensures
        placed(rest + seq![v] + before, rest + seq![v] + after, x),
{
    let k = choose|k: int| placed_at(before, after, x, k);
    let whole = rest + seq![v] + before;
    let grown = rest + seq![v] + after;
    let n = rest.len() as int;
    let at = n + 1 + k;
    assert(whole[n] == v);
    assert(grown =~= whole.insert(at, x));
    assert forall|i: int| 0 <= i < at implies #[trigger] whole[i].rank() <= x.rank() by {
        if i <= n {
            lemma_sorted_at(whole, i, n);
        } else {
            assert(whole[i] == before[i - n - 1]);
        }
    }
    assert forall|i: int| at <= i < whole.len() implies #[trigger] whole[i].rank() > x.rank() by {
        assert(whole[i] == before[i - n - 1]);
    }
    assert(placed_at(whole, grown, x, at));
}

/// Where `x` has its place in the values of one child of a node, on the side
/// to which the value of the node sends a search for `x`, it has its place
/// in the values of the whole tree.
pub proof fn lemma_placed_lift<T: Ordered>(
    dir: Direction,
    before: Seq<T>,
    after: Seq<T>,
    x: T,
    v: T,
    rest: Seq<T>,
)
    requires
        placed(before, after, x),
        dir == Direction::LEFT <==> v.rank() > x.rank(),
        sorted(
            match dir {
                Direction::LEFT => before + seq![v] + rest,
                Direction::RIGHT => rest + seq![v] + before,
            },
        ),
    ensures
        placed(
            match dir {
                Direction::LEFT => before + seq![v] + rest,
                Direction::RIGHT => rest + seq![v] + before,
            },
            match dir {
                Direction::LEFT => after + seq![v] + rest,
                Direction::RIGHT => rest + seq![v] + after,
            },
            x,
        ),
{
    match dir {
        Direction::LEFT => {
            lemma_placed_lift_left(before, after, x, v, rest);
        },
        Direction::RIGHT => {
            lemma_placed_lift_right(before, after, x, v, rest);
        },
    }
}

/// A single new node holds its value at its place among no others.
pub proof fn lemma_placed_alone<T: Ordered>(x: T)
    ensures
        placed(Seq::<T>::empty(), seq![x], x),
        sorted(seq![x]),
{
    reveal(sorted);
    assert(seq![x] =~= Seq::<T>::empty().insert(0, x));
    assert(placed_at(Seq::<T>::empty(), seq![x], x, 0));
}

/// Where there is room for the first `n` values there is room for fewer.
pub proof fn lemma_room_until<T: Ordered>(tree: Tree<(T, u32)>, data: Seq<T>, n: int, k: int)
    requires
        room_for(tree, data, n),
        0 < k <= n,
    ensures
        room_for(tree, data, k),
        landing_depth(grown_with_all(tree, data, k - 1), data[k - 1]) < MAX_HEIGHT,
    decreases n,
{
    if k < n {
        lemma_room_until(tree, data, n - 1, k);
    }
}

/// A balanced tree with right counters stays so when its root is looked
/// after, where its subtrees are balanced with right counters and differ by
/// at most two levels; it keeps its height or loses one level.
pub proof fn lemma_mended<T>(tree: Tree<(T, u32)>)
    requires
        tree is Node,
        tree.height() < u32::MAX,
        counted(tree.child(Direction::LEFT)),
        counted(tree.child(Direction::RIGHT)),
        balanced(tree.child(Direction::LEFT)),
        balanced(tree.child(Direction::RIGHT)),
        tree.child(Direction::LEFT).height() <= tree.child(Direction::RIGHT).height() + 2,
        tree.child(Direction::RIGHT).height() <= tree.child(Direction::LEFT).height() + 2,
    ensures
        counted(mended(tree)),
        balanced(mended(tree)),
        keys(mended(tree)) == keys(tree),
        mended(tree).height() == tree.height() || mended(tree).height() + 1 == tree.height(),
        tree.child(Direction::LEFT).height() <= tree.child(Direction::RIGHT).height() + 1
            && tree.child(Direction::RIGHT).height() <= tree.child(Direction::LEFT).height() + 1
            ==> mended(tree).height() == tree.height(),
{
    let l = tree.child(Direction::LEFT);
    let r = tree.child(Direction::RIGHT);
    lemma_stored_is_height(l);
    lemma_stored_is_height(r);
    if stored(l) > stored(r) + 1 {
        lemma_restored(tree, Direction::RIGHT);
    } else if stored(r) > stored(l) + 1 {
        lemma_restored(tree, Direction::LEFT);
    }
}

/// A tree whose side opposite to `dir` is two levels higher than the other
/// is balanced, with right counters and the same values, after it has been
/// restored; it keeps its height or loses one level.
pub proof fn lemma_restored<T>(tree: Tree<(T, u32)>, dir: Direction)
    requires
        tree is Node,
        tree.height() < u32::MAX,
        counted(tree.child(dir)),
        counted(tree.child(dir.flip())),
        balanced(tree.child(dir)),
        balanced(tree.child(dir.flip())),
        tree.child(dir.flip()).height() == tree.child(dir).height() + 2,
    ensures
        counted(restored(tree, dir)),
        balanced(restored(tree, dir)),
        keys(restored(tree, dir)) == keys(tree),
        restored(tree, dir).height() == tree.height() || restored(tree, dir).height() + 1
            == tree.height(),
{
    let heavy = tree.child(dir.flip());
    let inner = heavy.child(dir);
    let outer = heavy.child(dir.flip());
    assert(dir.flip().flip() == dir);
    lemma_join_children(tree, dir);
    lemma_join(dir, tree.child(dir), tree->1, heavy);
    lemma_join_children(heavy, dir);
    lemma_join(dir, inner, heavy->1, outer);
    lemma_stored_is_height(inner);
    lemma_stored_is_height(outer);
    if stored(inner) > stored(outer) {
        let between = Tree::join(dir, tree.child(dir), tree->1, rotated(heavy, dir.flip()));
        lemma_join_children(inner, dir);
        lemma_join(dir, inner.child(dir), inner->1, inner.child(dir.flip()));
        lemma_double_rotation(tree, between, dir);
        lemma_rotated_keys(heavy, dir.flip());
        lemma_rotated_shape(heavy, dir.flip());
        lemma_rotated_counted(heavy, dir.flip());
        lemma_join(dir, tree.child(dir), tree->1, rotated(heavy, dir.flip()));
        lemma_join_children(between, dir);
        lemma_join_children(between.child(dir.flip()), dir);
        lemma_join(
            dir,
            between.child(dir.flip()).child(dir),
            between.child(dir.flip())->1,
            between.child(dir.flip()).child(dir.flip()),
        );
        lemma_rotated_counted(between, dir);
        lemma_rotated_keys(between, dir);
    } else {
        lemma_single_rotation(tree, dir);
        lemma_rotated_counted(tree, dir);
        lemma_rotated_keys(tree, dir);
    }
}

/// A balanced tree with right counters stays so when a value comes in; it
/// keeps its height or gains one level, and holds one value more.
pub proof fn lemma_grown_sound<T: Ordered>(tree: Tree<(T, u32)>, x: T)
    requires
        counted(tree),
        balanced(tree),
        tree.height() + 1 < u32::MAX,
    ensures
        counted(grown_with(tree, x)),
        balanced(grown_with(tree, x)),
        grown_with(tree, x).height() == tree.height() || grown_with(tree, x).height()
            == tree.height() + 1,
        grown_with(tree, x) is Node,
        keys(grown_with(tree, x)).len() == keys(tree).len() + 1,
    decreases tree,
{
    match tree {
        Tree::Leaf => {
            lemma_join(Direction::LEFT, Tree::<(T, u32)>::Leaf, (x, 1u32), Tree::<(T, u32)>::Leaf);
            assert(keys(grown_with(tree, x)) =~= seq![x]);
        },
        Tree::Node(l, p, r) => {
            lemma_join(Direction::LEFT, *l, p, *r);
            if p.0.rank() > x.rank() {
                lemma_grown_sound(*l, x);
                let next = Tree::Node(Box::new(grown_with(*l, x)), p, r);
                lemma_join(Direction::LEFT, grown_with(*l, x), p, *r);
                lemma_mended(next);
            } else {
                lemma_grown_sound(*r, x);
                let next = Tree::Node(l, p, Box::new(grown_with(*r, x)));
                lemma_join(Direction::LEFT, *l, p, grown_with(*r, x));
                lemma_mended(next);
            }
        },
    }
}

/// A balanced tree with right counters has room for values to come in as
/// long as it holds no more than `MAX_KEYS` values with them.
pub proof fn law_room_by_count<T: Ordered>(tree: Tree<(T, u32)>, data: Seq<T>, n: int)
    requires
        counted(tree),
        balanced(tree),
        0 <= n <= data.len(),
        keys(tree).len() + n <= MAX_KEYS,
    ensures
        room_for(tree, data, n),
        counted(grown_with_all(tree, data, n)),
        balanced(grown_with_all(tree, data, n)),
        keys(grown_with_all(tree, data, n)).len() == keys(tree).len() + n,
    decreases n,
{
    if n > 0 {
        law_room_by_count(tree, data, n - 1);
        let before = grown_with_all(tree, data, n - 1);
        lemma_height_below_limit(before);
        lemma_landing_depth_bound(before, data[n - 1]);
        lemma_grown_sound(before, data[n - 1]);
    }
}

} // verus!
