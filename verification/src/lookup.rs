use vstd::prelude::*;
use crate::balance::sorted;
use crate::index::{left, left_child, right, right_child};
use crate::order::Ordered;
use crate::slots::{cell_at, tree_of};
use crate::traverse::slot;

verus! {

/// The slot at which a search for `x` that starts at slot `i` finds it: at
/// each occupied slot that does not hold `x` the search goes on to the left
/// where the value there is greater than `x`, else to the right, and it ends
/// without a result at an empty slot.
pub open spec fn lookup<T: Ordered>(s: Seq<Option<T>>, x: T, i: int) -> Option<int>
    decreases
        (if i < s.len() {
            s.len() - i
        } else {
            0
        }),
{
    if 0 <= i < s.len() {
        match s[i] {
            Some(v) => if v.rank() == x.rank() {
                Some(i)
            } else if v.rank() > x.rank() {
                lookup(s, x, left(i))
            } else {
                lookup(s, x, right(i))
            },
            None => None,
        }
    } else {
        None
    }
}

/// The parts of a sorted sequence around one of its values are sorted, the
/// part before holds nothing greater and the part behind nothing less.
pub proof fn lemma_sorted_split<T: Ordered>(a: Seq<T>, v: T, b: Seq<T>)
    requires
        sorted(a + seq![v] + b),
    ensures
        sorted(a),
        sorted(b),
        forall|i: int| 0 <= i < a.len() ==> (#[trigger] a[i]).rank() <= v.rank(),
        forall|i: int| 0 <= i < b.len() ==> v.rank() <= (#[trigger] b[i]).rank(),
{
    reveal(sorted);
    let all = a + seq![v] + b;
    let n = a.len() as int;
    assert(all[n] == v);
    assert forall|i: int, j: int| 0 <= i < j < a.len() implies a[i].rank() <= a[j].rank() by {
        assert(all[i] == a[i]);
        assert(all[j] == a[j]);
    }
    assert forall|i: int, j: int| 0 <= i < j < b.len() implies b[i].rank() <= b[j].rank() by {
        assert(all[n + 1 + i] == b[i]);
        assert(all[n + 1 + j] == b[j]);
    }
    assert forall|i: int| 0 <= i < a.len() implies (#[trigger] a[i]).rank() <= v.rank() by {
        assert(all[i] == a[i]);
    }
    assert forall|i: int| 0 <= i < b.len() implies v.rank() <= (#[trigger] b[i]).rank() by {
        assert(all[n + 1 + i] == b[i]);
    }
}

/// A value is among those of three parts put together where it is in one of them.
pub proof fn lemma_contains_parts<T>(a: Seq<T>, v: T, b: Seq<T>, x: T)
    ensures
        (a + seq![v] + b).contains(x) <==> a.contains(x) || v == x || b.contains(x),
{
    let all = a + seq![v] + b;
    let n = a.len() as int;
    if all.contains(x) {
        let k = choose|k: int| 0 <= k < all.len() && all[k] == x;
        if k < n {
            assert(a[k] == x);
        } else if k > n {
            assert(b[k - n - 1] == x);
        }
    }
    if a.contains(x) {
        let k = choose|k: int| 0 <= k < a.len() && a[k] == x;
        assert(all[k] == x);
    }
    if v == x {
        assert(all[n] == x);
    }
    if b.contains(x) {
        let k = choose|k: int| 0 <= k < b.len() && b[k] == x;
        assert(all[n + 1 + k] == x);
    }
}

/// In slots that stand for a search tree a search finds `x` exactly where
/// `x` is among the values of the tree, and the slot it finds holds `x`.
pub proof fn lemma_lookup<T: Ordered>(s: Seq<Option<T>>, x: T, i: int)
    requires
        0 <= i,
        sorted(tree_of(s, i).in_order()),
    ensures
        lookup(s, x, i) is Some <==> tree_of(s, i).in_order().contains(x),
        lookup(s, x, i) matches Some(j) ==> cell_at(s, j) == Some(x) && i <= j,
    decreases
        (if i < s.len() {
            s.len() - i
        } else {
            0
        }),
{
    if i < s.len() && s[i] is Some {
        let v = s[i].unwrap();
        let a = tree_of(s, left(i)).in_order();
        let b = tree_of(s, right(i)).in_order();
        lemma_sorted_split(a, v, b);
        lemma_contains_parts(a, v, b, x);
        lemma_lookup(s, x, left(i));
        lemma_lookup(s, x, right(i));
        if v.rank() == x.rank() {
            T::rank_is_injective(v, x);
        } else if v.rank() > x.rank() {
            if b.contains(x) {
                let k = choose|k: int| 0 <= k < b.len() && b[k] == x;
                assert(v.rank() <= b[k].rank());
            }
        } else {
            if a.contains(x) {
                let k = choose|k: int| 0 <= k < a.len() && a[k] == x;
                assert(a[k].rank() <= v.rank());
            }
        }
    } else {
        assert(tree_of(s, i).in_order() =~= Seq::<T>::empty());
    }
}

/// Searches the tree in `slots` for `data` from the root down.
pub fn find_slot<T: Ordered>(slots: &Vec<Option<T>>, data: T) -> (r: Option<usize>)
    ensures
        r is Some <==> lookup(slots@, data, 0) is Some,
        r matches Some(i) ==> lookup(slots@, data, 0) == Some(i as int),
{
    let mut i: usize = 0;
    loop
        invariant
            lookup(slots@, data, i as int) == lookup(slots@, data, 0),
        decreases
            (if i < slots.len() {
                slots.len() - i
            } else {
                0
            }),
    {
        match slot(slots, i) {
            None => {
                return None;
            },
            Some(v) => {
                if v.same_as(&data) {
                    return Some(i);
                }
                if i > (usize::MAX - 2) / 2 {
                    let len: usize = slots.len();
                    assert(lookup(slots@, data, left(i as int)) is None);
                    assert(lookup(slots@, data, right(i as int)) is None);
                    return None;
                }
                i = if v.exceeds(&data) {
                    left_child(i)
                } else {
                    right_child(i)
                };
            },
        }
    }
}

} // verus!
