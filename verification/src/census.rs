use vstd::multiset::Multiset;
use vstd::prelude::*;
use crate::index::{left, right};
use crate::slots::{clean, lemma_clean_children, lemma_clean_empty, lemma_empty_at, tree_of};

verus! {

/// The values that the slots of the subtree rooted at slot `i` hold, each as
/// often as a slot holds it.
pub open spec fn held<V>(s: Seq<Option<V>>, i: int) -> Multiset<V>
    decreases
        (if i < s.len() {
            s.len() - i
        } else {
            0
        }),
{
    if 0 <= i < s.len() {
        let below = held(s, left(i)).add(held(s, right(i)));
        match s[i] {
            Some(v) => below.insert(v),
            None => below,
        }
    } else {
        Multiset::empty()
    }
}

/// The number of levels from slot `i` down to the last occupied slot that
/// hangs under it through occupied slots: none where slot `i` is empty.
pub open spec fn slot_height<V>(s: Seq<Option<V>>, i: int) -> nat
    decreases
        (if i < s.len() {
            s.len() - i
        } else {
            0
        }),
{
    if 0 <= i < s.len() && s[i] is Some {
        let l = slot_height(s, left(i));
        let r = slot_height(s, right(i));
        if l >= r {
            l + 1
        } else {
            r + 1
        }
    } else {
        0
    }
}

/// The height over the slots is the height of the tree that they stand for.
pub proof fn lemma_slot_height<V>(s: Seq<Option<V>>, i: int)
    ensures
        slot_height(s, i) == tree_of(s, i).height(),
    decreases
        (if i < s.len() {
            s.len() - i
        } else {
            0
        }),
{
    if 0 <= i < s.len() && s[i] is Some {
        lemma_slot_height(s, left(i));
        lemma_slot_height(s, right(i));
    }
}

/// Where no occupied slot hangs under an empty one, the slots hold what
/// the tree lists, each value as often.
pub proof fn lemma_held_is_listed<V>(s: Seq<Option<V>>, i: int)
    requires
        0 <= i,
        clean(s, i),
    ensures
        held(s, i) == tree_of(s, i).in_order().to_multiset(),
    decreases
        (if i < s.len() {
            s.len() - i
        } else {
            0
        }),
{
    let nothing = Seq::<V>::empty();
    nothing.to_multiset_ensures();
    assert(nothing.to_multiset() =~= Multiset::<V>::empty());
    if i < s.len() {
        lemma_clean_children(s, i);
        lemma_held_is_listed(s, left(i));
        lemma_held_is_listed(s, right(i));
        let l = tree_of(s, left(i)).in_order();
        let r = tree_of(s, right(i)).in_order();
        match s[i] {
            Some(v) => {
                vstd::seq_lib::lemma_multiset_commutative(l + seq![v], r);
                vstd::seq_lib::lemma_multiset_commutative(l, seq![v]);
                assert(seq![v] =~= nothing.push(v));
                vstd::seq_lib::to_multiset_build(nothing, v);
                assert(held(s, i) =~= (l + seq![v] + r).to_multiset());
            },
            None => {
                lemma_clean_empty(s, i);
                assert(crate::index::in_subtree(left(i), i)) by {
                    assert(crate::index::in_subtree(i, i));
                }
                assert(crate::index::in_subtree(right(i), i)) by {
                    assert(crate::index::in_subtree(i, i));
                }
                lemma_empty_at(s, i, left(i));
                lemma_empty_at(s, i, right(i));
                assert(tree_of(s, left(i)) is Leaf);
                assert(tree_of(s, right(i)) is Leaf);
                assert(held(s, i) =~= Multiset::<V>::empty());
            },
        }
    }
}

} // verus!
