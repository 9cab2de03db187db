use vstd::prelude::*;
use crate::avl_tree::AVLTree;
use crate::balance::{keys, lemma_sorted_at, lemma_stored_is_height, placed, sorted};
use crate::census::{held, lemma_held_is_listed, lemma_slot_height, slot_height};
use crate::index::{in_subtree, left, lemma_subtree_split, right};
use crate::lookup::{lemma_contains_parts, lemma_sorted_split};
use crate::order::Ordered;
use crate::retrace::lemma_clean_everywhere;
use crate::search::{lemma_sound_children, lemma_sound_everywhere};
use crate::slots::{
    cell_at, clean, lemma_clean_children, lemma_clean_empty, lemma_empty_at, lemma_tree_stored,
    lemma_tree_unfold, tree_of,
};

verus! {

/// The counter recorded for slot `i` of `tree`: 0 for a slot outside the array.
pub open spec fn recorded<T: Ordered>(tree: AVLTree<T>, i: int) -> int {
    if 0 <= i < tree.balance_factor@.len() {
        tree.balance_factor@[i] as int
    } else {
        0
    }
}

/// Two sorted sequences that hold the same values equally often are one
/// sequence: to say of a sequence that it is sorted and what it holds is to
/// say what it is.
pub proof fn law_sorted_is_unique<T: Ordered>(a: Seq<T>, b: Seq<T>)
    requires
        sorted(a),
        sorted(b),
        a.to_multiset() == b.to_multiset(),
    ensures
        a == b,
    decreases a.len(),
{
    a.to_multiset_ensures();
    b.to_multiset_ensures();
    if a.len() == 0 {
        assert(a =~= b);
    } else {
        assert(a.contains(a[0]));
        assert(b.contains(b[0]));
        assert(b.to_multiset().count(a[0]) > 0);
        assert(a.to_multiset().count(b[0]) > 0);
        let i = choose|i: int| 0 <= i < b.len() && b[i] == a[0];
        let j = choose|j: int| 0 <= j < a.len() && a[j] == b[0];
        lemma_sorted_at(b, 0, i);
        lemma_sorted_at(a, 0, j);
        T::rank_is_injective(a[0], b[0]);
        let a1 = a.drop_first();
        let b1 = b.drop_first();
        assert(a1 =~= a.remove(0));
        assert(b1 =~= b.remove(0));
        vstd::seq_lib::to_multiset_remove(a, 0);
        vstd::seq_lib::to_multiset_remove(b, 0);
        assert(sorted(a1) && sorted(b1)) by {
            reveal(sorted);
            assert forall|x: int, y: int| 0 <= x < y < a1.len() implies a1[x].rank()
                <= a1[y].rank() by {
                assert(a1[x] == a[x + 1] && a1[y] == a[y + 1]);
            }
            assert forall|x: int, y: int| 0 <= x < y < b1.len() implies b1[x].rank()
                <= b1[y].rank() by {
                assert(b1[x] == b[x + 1] && b1[y] == b[y + 1]);
            }
        }
        law_sorted_is_unique(a1, b1);
        assert(a =~= seq![a[0]] + a1);
        assert(b =~= seq![b[0]] + b1);
    }
}

/// What a tree lists in order after values have been put in is the sorted
/// sequence of what it held and those values, values that occur more than
/// once as often as they occur.
pub proof fn law_in_order_is_sorted_input<T: Ordered>(tree: AVLTree<T>, input: Seq<T>, all: Seq<T>)
    requires
        tree.valid(),
        tree@.to_multiset() == input.to_multiset(),
        sorted(all),
        all.to_multiset() == input.to_multiset(),
    ensures
        sorted(tree@),
        tree@ == all,
{
    law_sorted_is_unique(tree@, all);
}

/// In a tree every occupied slot records one more than the higher of the
/// counters recorded for its children, and those two differ by at most one.
pub proof fn law_recorded_balance<T: Ordered>(tree: AVLTree<T>, i: int)
    requires
        tree.valid(),
        0 <= i < tree.root@.len(),
        tree.root@[i] is Some,
    ensures
        recorded(tree, left(i)) <= recorded(tree, right(i)) + 1,
        recorded(tree, right(i)) <= recorded(tree, left(i)) + 1,
        recorded(tree, i) == 1 + (if recorded(tree, left(i)) >= recorded(tree, right(i)) {
            recorded(tree, left(i))
        } else {
            recorded(tree, right(i))
        }),
{
    let s = tree.cells();
    lemma_sound_everywhere(s, i);
    lemma_sound_children(tree_of(s, i));
    lemma_tree_unfold(s, i);
    lemma_tree_stored(s, i);
    lemma_tree_stored(s, left(i));
    lemma_tree_stored(s, right(i));
    lemma_stored_is_height(tree_of(s, i));
    lemma_stored_is_height(tree_of(s, left(i)));
    lemma_stored_is_height(tree_of(s, right(i)));
}

/// The slots of a tree hold what the tree lists in order, each value as
/// often as the tree lists it.
pub proof fn law_slots_are_listed<T: Ordered>(tree: AVLTree<T>)
    requires
        tree.layout(),
        clean(tree.cells(), 0),
    ensures
        held(tree.root@, 0) == tree@.to_multiset(),
{
    assert(clean(tree.root@, 0)) by {
        reveal(clean);
        assert forall|j: int|
            #[trigger] in_subtree(j, 0) && j != 0 && cell_at(tree.root@, j) is Some implies cell_at(
            tree.root@,
            crate::index::up(j),
        ) is Some by {
            assert(cell_at(tree.cells(), j) is Some);
            assert(cell_at(tree.cells(), crate::index::up(j)) is Some);
        }
    }
    lemma_held_is_listed(tree.root@, 0);
    tree.lemma_values(0);
}

/// In a tree the counter of every occupied slot is the height of the
/// subtree rooted at the slot, counted over the slots, and the heights of
/// the subtrees rooted at its two children differ by at most one.
pub proof fn law_counters_are_heights<T: Ordered>(tree: AVLTree<T>, i: int)
    requires
        tree.valid(),
        0 <= i < tree.root@.len(),
        tree.root@[i] is Some,
    ensures
        tree.balance_factor@[i] == slot_height(tree.root@, i),
        slot_height(tree.root@, left(i)) <= slot_height(tree.root@, right(i)) + 1,
        slot_height(tree.root@, right(i)) <= slot_height(tree.root@, left(i)) + 1,
{
    let s = tree.cells();
    lemma_sound_everywhere(s, i);
    lemma_tree_unfold(s, i);
    tree.lemma_values(i);
    tree.lemma_values(left(i));
    tree.lemma_values(right(i));
    lemma_slot_height(tree.root@, i);
    lemma_slot_height(tree.root@, left(i));
    lemma_slot_height(tree.root@, right(i));
    crate::balance::lemma_strip(tree_of(s, i));
    crate::balance::lemma_strip(tree_of(s, left(i)));
    crate::balance::lemma_strip(tree_of(s, right(i)));
}

/// A value that has been put in is among the values, and stays among them
/// when another value is put in.
pub proof fn law_inserted_is_found<T: Ordered>(
    before: Seq<T>,
    after: Seq<T>,
    later: Seq<T>,
    x: T,
    y: T,
)
    requires
        placed(before, after, x),
        placed(after, later, y),
    ensures
        after.contains(x),
        later.contains(x),
        forall|v: T| before.contains(v) ==> #[trigger] later.contains(v),
{
    crate::binary_tree::lemma_placed_contains(before, after, x);
    crate::binary_tree::lemma_placed_contains(after, later, y);
}

/// The value of an occupied slot of a clean subtree is among the values
/// of the tree there.
pub proof fn lemma_occupied_is_listed<T: Ordered>(s: Seq<Option<(T, u32)>>, i: int, j: int)
    requires
        0 <= i,
        clean(s, i),
        in_subtree(j, i),
        cell_at(s, j) is Some,
    ensures
        keys(tree_of(s, i)).contains(cell_at(s, j).unwrap().0),
    decreases j - i,
{
    let x = cell_at(s, j).unwrap().0;
    if cell_at(s, i) is None {
        lemma_clean_empty(s, i);
        lemma_empty_at(s, i, j);
    }
    lemma_tree_unfold(s, i);
    let a = keys(tree_of(s, left(i)));
    let b = keys(tree_of(s, right(i)));
    let v = cell_at(s, i).unwrap().0;
    lemma_contains_parts(a, v, b, x);
    if j != i {
        lemma_subtree_split(j, i);
        lemma_clean_children(s, i);
        if in_subtree(j, left(i)) {
            lemma_occupied_is_listed(s, left(i), j);
        } else {
            lemma_occupied_is_listed(s, right(i), j);
        }
    }
}

/// In a tree no value in a slot under the left child of an occupied slot
/// is greater than the value of that slot, and no value in a slot under its
/// right child is less.
pub proof fn law_search_order<T: Ordered>(tree: AVLTree<T>, i: int, j: int)
    requires
        tree.valid(),
        0 <= i < tree.root@.len(),
        0 <= j < tree.root@.len(),
        tree.root@[i] is Some,
        tree.root@[j] is Some,
    ensures
        in_subtree(j, left(i)) ==> tree.root@[j].unwrap().rank() <= tree.root@[i].unwrap().rank(),
        in_subtree(j, right(i)) ==> tree.root@[i].unwrap().rank() <= tree.root@[j].unwrap().rank(),
{
    let s = tree.cells();
    let x = cell_at(s, j).unwrap().0;
    let v = cell_at(s, i).unwrap().0;
    let a = keys(tree_of(s, left(i)));
    let b = keys(tree_of(s, right(i)));
    lemma_sound_everywhere(s, i);
    lemma_clean_everywhere(s, left(i));
    lemma_clean_everywhere(s, right(i));
    lemma_tree_unfold(s, i);
    lemma_sorted_split(a, v, b);
    if in_subtree(j, left(i)) {
        lemma_occupied_is_listed(s, left(i), j);
        let k = choose|k: int| 0 <= k < a.len() && a[k] == x;
        assert(a[k].rank() <= v.rank());
    }
    if in_subtree(j, right(i)) {
        lemma_occupied_is_listed(s, right(i), j);
        let k = choose|k: int| 0 <= k < b.len() && b[k] == x;
        assert(v.rank() <= b[k].rank());
    }
}

} // verus!
