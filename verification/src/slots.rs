use vstd::prelude::*;
use crate::index::{
    apart, capacity_of, in_subtree, left, lemma_apart_at, lemma_level_capacity,
    lemma_level_of_child, lemma_subtree_of_child, lemma_subtree_split, level, right, up,
};
use crate::shape::Tree;

verus! {

/// What slot `i` of `s` holds; a slot outside `s` holds nothing.
pub open spec fn cell_at<V>(s: Seq<Option<V>>, i: int) -> Option<V> {
    if 0 <= i < s.len() {
        s[i]
    } else {
        None
    }
}

/// The tree that the slots of `s` stand for, read from slot `i` down: an
/// empty slot is a leaf, whatever lies below it.
pub open spec fn tree_of<V>(s: Seq<Option<V>>, i: int) -> Tree<V>
    decreases
        (if i < s.len() {
            s.len() - i
        } else {
            0
        }),
{
    if 0 <= i < s.len() {
        match s[i] {
            Some(v) => Tree::Node(Box::new(tree_of(s, left(i))), v, Box::new(tree_of(s, right(i)))),
            None => Tree::Leaf,
        }
    } else {
        Tree::Leaf
    }
}

/// Every slot of the subtree rooted at `i` is empty.
#[verifier::opaque]
pub open spec fn empty_below<V>(s: Seq<Option<V>>, i: int) -> bool {
    forall|j: int| #[trigger] in_subtree(j, i) ==> cell_at(s, j) is None
}

/// No occupied slot of the subtree rooted at `i` hangs under an empty one.
#[verifier::opaque]
pub open spec fn clean<V>(s: Seq<Option<V>>, i: int) -> bool {
    forall|j: int|
        #[trigger] in_subtree(j, i) && j != i && cell_at(s, j) is Some ==> cell_at(s, up(j)) is Some
}

/// `s1` and `s2` hold the same in every slot.
#[verifier::opaque]
pub open spec fn same_cells<V>(s1: Seq<Option<V>>, s2: Seq<Option<V>>) -> bool {
    forall|j: int| #[trigger] cell_at(s1, j) == cell_at(s2, j)
}

/// `s1` and `s2` hold the same in every slot of the subtree rooted at `i`.
#[verifier::opaque]
pub open spec fn agree_on<V>(s1: Seq<Option<V>>, s2: Seq<Option<V>>, i: int) -> bool {
    forall|j: int| #[trigger] in_subtree(j, i) ==> cell_at(s1, j) == cell_at(s2, j)
}

/// `s1` and `s2` hold the same in every slot outside the subtree rooted at `a`.
#[verifier::opaque]
pub open spec fn agree_off<V>(s1: Seq<Option<V>>, s2: Seq<Option<V>>, a: int) -> bool {
    forall|j: int| !#[trigger] in_subtree(j, a) ==> cell_at(s1, j) == cell_at(s2, j)
}

/// `s1` and `s2` hold the same in every slot outside the subtrees rooted at
/// `a` and at `b`.
#[verifier::opaque]
pub open spec fn agree_off2<V>(s1: Seq<Option<V>>, s2: Seq<Option<V>>, a: int, b: int) -> bool {
    forall|j: int|
        !#[trigger] in_subtree(j, a) && !#[trigger] in_subtree(j, b) ==> cell_at(s1, j) == cell_at(
            s2,
            j,
        )
}

/// `s1` and `s2` hold the same in every slot but `a`, `b` and `c`.
#[verifier::opaque]
pub open spec fn same_but<V>(s1: Seq<Option<V>>, s2: Seq<Option<V>>, a: int, b: int, c: int) -> bool {
    forall|j: int| j != a && j != b && j != c ==> #[trigger] cell_at(s1, j) == cell_at(s2, j)
}

/// Three writes change no other slot.
pub proof fn lemma_same_but_3<V>(
    s: Seq<Option<V>>,
    a: int,
    x: Option<V>,
    b: int,
    y: Option<V>,
    c: int,
    z: Option<V>,
)
    requires
        0 <= a < s.len(),
        0 <= b < s.len(),
        0 <= c < s.len(),
    ensures
        same_but(s, s.update(a, x).update(b, y).update(c, z), a, b, c),
{
    reveal(same_but);
}

/// Two writes change no other slot.
pub proof fn lemma_same_but_2<V>(
    s: Seq<Option<V>>,
    a: int,
    x: Option<V>,
    b: int,
    y: Option<V>,
    c: int,
)
    requires
        0 <= a < s.len(),
        0 <= b < s.len(),
    ensures
        same_but(s, s.update(a, x).update(b, y), a, b, c),
{
    reveal(same_but);
}

/// One write changes no other slot.
pub proof fn lemma_same_but_1<V>(s: Seq<Option<V>>, a: int, x: Option<V>, b: int, c: int)
    requires
        0 <= a < s.len(),
    ensures
        same_but(s, s.update(a, x), a, b, c),
{
    reveal(same_but);
}

/// Writes outside the subtree rooted at `i` leave that subtree as it was.
pub proof fn lemma_same_but_agree_on<V>(
    s1: Seq<Option<V>>,
    s2: Seq<Option<V>>,
    a: int,
    b: int,
    c: int,
    i: int,
)
    requires
        same_but(s1, s2, a, b, c),
        !in_subtree(a, i),
        !in_subtree(b, i),
        !in_subtree(c, i),
    ensures
        agree_on(s1, s2, i),
        tree_of(s1, i) == tree_of(s2, i),
        clean(s1, i) == clean(s2, i),
        empty_below(s1, i) == empty_below(s2, i),
{
    assert(agree_on(s1, s2, i)) by {
        reveal(same_but);
        reveal(agree_on);
    }
    lemma_tree_agree(s1, s2, i);
    lemma_agree_transfers(s1, s2, i);
}

/// Writes inside the subtree rooted at `p` leave all outside it as it was.
pub proof fn lemma_same_but_agree_off<V>(
    s1: Seq<Option<V>>,
    s2: Seq<Option<V>>,
    a: int,
    b: int,
    c: int,
    p: int,
)
    requires
        same_but(s1, s2, a, b, c),
        in_subtree(a, p),
        in_subtree(b, p),
        in_subtree(c, p),
    ensures
        agree_off(s1, s2, p),
{
    reveal(same_but);
    reveal(agree_off);
}

/// What the slots hold at `j` where they are known to hold the same everywhere.
pub proof fn lemma_same_cells_at<V>(s1: Seq<Option<V>>, s2: Seq<Option<V>>, j: int)
    requires
        same_cells(s1, s2),
    ensures
        cell_at(s1, j) == cell_at(s2, j),
{
    reveal(same_cells);
}

/// Holding the same everywhere implies agreement on and off every subtree.
pub proof fn lemma_same_cells<V>(s1: Seq<Option<V>>, s2: Seq<Option<V>>, i: int)
    requires
        same_cells(s1, s2),
    ensures
        same_cells(s2, s1),
        agree_on(s1, s2, i),
        agree_off(s1, s2, i),
        tree_of(s1, i) == tree_of(s2, i),
        clean(s1, i) == clean(s2, i),
        empty_below(s1, i) == empty_below(s2, i),
{
    assert(same_cells(s2, s1)) by {
        reveal(same_cells);
    }
    assert(agree_on(s1, s2, i)) by {
        reveal(same_cells);
        reveal(agree_on);
    }
    assert(agree_off(s1, s2, i)) by {
        reveal(same_cells);
        reveal(agree_off);
    }
    lemma_tree_agree(s1, s2, i);
    lemma_agree_transfers(s1, s2, i);
}

/// Every sequence holds the same as itself.
pub proof fn lemma_same_cells_refl<V>(s: Seq<Option<V>>)
    ensures
        same_cells(s, s),
{
    reveal(same_cells);
}

/// Holding the same everywhere carries over from one pair to the next.
pub proof fn lemma_same_cells_trans<V>(s1: Seq<Option<V>>, s2: Seq<Option<V>>, s3: Seq<Option<V>>)
    requires
        same_cells(s1, s2),
        same_cells(s2, s3),
    ensures
        same_cells(s1, s3),
{
    reveal(same_cells);
    assert forall|j: int| #[trigger] cell_at(s1, j) == cell_at(s3, j) by {
        assert(cell_at(s1, j) == cell_at(s2, j));
        assert(cell_at(s2, j) == cell_at(s3, j));
    }
}

/// What the slots hold at `j` of a subtree on which they agree.
pub proof fn lemma_agree_on_at<V>(s1: Seq<Option<V>>, s2: Seq<Option<V>>, i: int, j: int)
    requires
        agree_on(s1, s2, i),
        in_subtree(j, i),
    ensures
        cell_at(s1, j) == cell_at(s2, j),
{
    reveal(agree_on);
}

/// What the slots hold at `j` outside a subtree off which they agree.
pub proof fn lemma_agree_off_at<V>(s1: Seq<Option<V>>, s2: Seq<Option<V>>, a: int, j: int)
    requires
        agree_off(s1, s2, a),
        !in_subtree(j, a),
    ensures
        cell_at(s1, j) == cell_at(s2, j),
{
    reveal(agree_off);
}

/// What the slots hold at `j` outside two subtrees off which they agree.
pub proof fn lemma_agree_off2_at<V>(
    s1: Seq<Option<V>>,
    s2: Seq<Option<V>>,
    a: int,
    b: int,
    j: int,
)
    requires
        agree_off2(s1, s2, a, b),
        !in_subtree(j, a),
        !in_subtree(j, b),
    ensures
        cell_at(s1, j) == cell_at(s2, j),
{
    reveal(agree_off2);
}

/// A slot of an empty subtree is empty.
pub proof fn lemma_empty_at<V>(s: Seq<Option<V>>, i: int, j: int)
    requires
        empty_below(s, i),
        in_subtree(j, i),
    ensures
        cell_at(s, j) is None,
{
    reveal(empty_below);
}

/// Slots that agree below `i` stand for the same tree at `i`.
pub proof fn lemma_tree_agree<V>(s1: Seq<Option<V>>, s2: Seq<Option<V>>, i: int)
    requires
        agree_on(s1, s2, i),
    ensures
        tree_of(s1, i) == tree_of(s2, i),
    decreases s1.len() + s2.len() - i,
{
    if 0 <= i && (i < s1.len() || i < s2.len()) {
        assert(in_subtree(i, i));
        lemma_agree_on_at(s1, s2, i, i);
        if cell_at(s1, i) is Some {
            lemma_agree_children(s1, s2, i);
            lemma_tree_agree(s1, s2, left(i));
            lemma_tree_agree(s1, s2, right(i));
        }
    }
}

/// Slots that agree below `i` are clean, or empty, below `i` together.
pub proof fn lemma_agree_transfers<V>(s1: Seq<Option<V>>, s2: Seq<Option<V>>, i: int)
    requires
        agree_on(s1, s2, i),
    ensures
        clean(s1, i) == clean(s2, i),
        empty_below(s1, i) == empty_below(s2, i),
        agree_on(s2, s1, i),
{
    reveal(agree_on);
    reveal(clean);
    reveal(empty_below);
    assert forall|j: int| #[trigger] in_subtree(j, i) && j != i implies in_subtree(up(j), i) by {}
}

/// Agreement below `i` carries over from one pair to the next.
pub proof fn lemma_agree_on_trans<V>(
    s1: Seq<Option<V>>,
    s2: Seq<Option<V>>,
    s3: Seq<Option<V>>,
    i: int,
)
    requires
        agree_on(s1, s2, i),
        agree_on(s2, s3, i),
    ensures
        agree_on(s1, s3, i),
{
    reveal(agree_on);
}

/// What agrees below `i` agrees below each child of `i`.
pub proof fn lemma_agree_children<V>(s1: Seq<Option<V>>, s2: Seq<Option<V>>, i: int)
    requires
        0 <= i,
        agree_on(s1, s2, i),
    ensures
        agree_on(s1, s2, left(i)),
        agree_on(s1, s2, right(i)),
{
    reveal(agree_on);
    assert forall|j: int| #[trigger] in_subtree(j, left(i)) implies cell_at(s1, j) == cell_at(
        s2,
        j,
    ) by {
        lemma_subtree_of_child(j, i);
    }
    assert forall|j: int| #[trigger] in_subtree(j, right(i)) implies cell_at(s1, j) == cell_at(
        s2,
        j,
    ) by {
        lemma_subtree_of_child(j, i);
    }
}

/// Writing a slot outside the subtree rooted at `i` leaves that subtree as it was.
pub proof fn lemma_update_agree_on<V>(s: Seq<Option<V>>, k: int, x: Option<V>, i: int)
    requires
        0 <= k < s.len(),
        !in_subtree(k, i),
    ensures
        agree_on(s, s.update(k, x), i),
{
    reveal(agree_on);
}

/// Writing a slot of the subtree rooted at `a` leaves all outside it as it was.
pub proof fn lemma_update_agree_off<V>(s: Seq<Option<V>>, k: int, x: Option<V>, a: int)
    requires
        0 <= k < s.len(),
        in_subtree(k, a),
    ensures
        agree_off(s, s.update(k, x), a),
{
    reveal(agree_off);
}

/// A change outside the subtree rooted at `a` leaves a subtree apart from it
/// as it was.
pub proof fn lemma_off_gives_on<V>(s1: Seq<Option<V>>, s2: Seq<Option<V>>, a: int, i: int)
    requires
        agree_off(s1, s2, a),
        apart(i, a),
    ensures
        agree_on(s1, s2, i),
{
    reveal(agree_on);
    reveal(agree_off);
    assert forall|j: int| #[trigger] in_subtree(j, i) implies cell_at(s1, j) == cell_at(s2, j) by {
        lemma_apart_at(i, a, j);
    }
}

/// A change outside the subtrees rooted at `a` and `b` leaves a subtree apart
/// from both as it was.
pub proof fn lemma_off2_gives_on<V>(
    s1: Seq<Option<V>>,
    s2: Seq<Option<V>>,
    a: int,
    b: int,
    i: int,
)
    requires
        agree_off2(s1, s2, a, b),
        apart(i, a),
        apart(i, b),
    ensures
        agree_on(s1, s2, i),
{
    reveal(agree_on);
    reveal(agree_off2);
    assert forall|j: int| #[trigger] in_subtree(j, i) implies cell_at(s1, j) == cell_at(s2, j) by {
        lemma_apart_at(i, a, j);
        lemma_apart_at(i, b, j);
    }
}

/// A change within the subtree rooted at `a`, itself inside the subtree
/// rooted at `p`, leaves all outside `p` as it was.
pub proof fn lemma_off_within<V>(s1: Seq<Option<V>>, s2: Seq<Option<V>>, a: int, p: int)
    requires
        agree_off(s1, s2, a),
        in_subtree(a, p),
    ensures
        agree_off(s1, s2, p),
{
    reveal(agree_off);
    assert forall|j: int| !#[trigger] in_subtree(j, p) implies cell_at(s1, j) == cell_at(s2, j) by {
        if in_subtree(j, a) {
            lemma_subtree_trans(j, a, p);
        }
    }
}

/// A change within the subtrees rooted at `a` and `b`, both inside the
/// subtree rooted at `p`, leaves all outside `p` as it was.
pub proof fn lemma_off2_within<V>(s1: Seq<Option<V>>, s2: Seq<Option<V>>, a: int, b: int, p: int)
    requires
        agree_off2(s1, s2, a, b),
        in_subtree(a, p),
        in_subtree(b, p),
    ensures
        agree_off(s1, s2, p),
{
    reveal(agree_off);
    reveal(agree_off2);
    assert forall|j: int| !#[trigger] in_subtree(j, p) implies cell_at(s1, j) == cell_at(s2, j) by {
        if in_subtree(j, a) {
            lemma_subtree_trans(j, a, p);
        }
        if in_subtree(j, b) {
            lemma_subtree_trans(j, b, p);
        }
    }
}

/// What agrees off one subtree agrees off that subtree and any other.
pub proof fn lemma_off_widen2<V>(s1: Seq<Option<V>>, s2: Seq<Option<V>>, a: int, b: int)
    requires
        agree_off(s1, s2, a),
    ensures
        agree_off2(s1, s2, a, b),
        agree_off2(s1, s2, b, a),
{
    reveal(agree_off);
    reveal(agree_off2);
}

/// Changes that each stay within the subtree rooted at `a` do so together.
pub proof fn lemma_agree_off_trans<V>(
    s1: Seq<Option<V>>,
    s2: Seq<Option<V>>,
    s3: Seq<Option<V>>,
    a: int,
)
    requires
        agree_off(s1, s2, a),
        agree_off(s2, s3, a),
    ensures
        agree_off(s1, s3, a),
{
    reveal(agree_off);
}

/// Changes that each stay within the subtrees rooted at `a` and `b` do so together.
pub proof fn lemma_agree_off2_trans<V>(
    s1: Seq<Option<V>>,
    s2: Seq<Option<V>>,
    s3: Seq<Option<V>>,
    a: int,
    b: int,
)
    requires
        agree_off2(s1, s2, a, b),
        agree_off2(s2, s3, a, b),
    ensures
        agree_off2(s1, s3, a, b),
{
    reveal(agree_off2);
}

/// A change within two subtrees that lie inside those rooted at `a` and `b`
/// stays within the subtrees rooted at `a` and `b`.
pub proof fn lemma_off2_widen<V>(
    s1: Seq<Option<V>>,
    s2: Seq<Option<V>>,
    ca: int,
    cb: int,
    a: int,
    b: int,
)
    requires
        agree_off2(s1, s2, ca, cb),
        in_subtree(ca, a) || in_subtree(ca, b),
        in_subtree(cb, a) || in_subtree(cb, b),
    ensures
        agree_off2(s1, s2, a, b),
{
    reveal(agree_off2);
    assert forall|j: int|
        !#[trigger] in_subtree(j, a) && !#[trigger] in_subtree(j, b) implies cell_at(s1, j)
        == cell_at(s2, j) by {
        if in_subtree(j, ca) {
            if in_subtree(ca, a) {
                lemma_subtree_trans(j, ca, a);
            } else {
                lemma_subtree_trans(j, ca, b);
            }
        }
        if in_subtree(j, cb) {
            if in_subtree(cb, a) {
                lemma_subtree_trans(j, cb, a);
            } else {
                lemma_subtree_trans(j, cb, b);
            }
        }
    }
}

/// Writing the roots `a` and `b` changes nothing outside their subtrees.
pub proof fn lemma_update2_agree_off2<V>(
    s: Seq<Option<V>>,
    a: int,
    x: Option<V>,
    b: int,
    y: Option<V>,
)
    requires
        0 <= a < s.len(),
        0 <= b < s.len(),
    ensures
        agree_off2(s, s.update(a, x).update(b, y), a, b),
        agree_off2(s, s.update(a, x).update(b, y), b, a),
{
    reveal(agree_off2);
    assert(in_subtree(a, a));
    assert(in_subtree(b, b));
}

/// A slot below a slot below `p` is below `p`.
pub proof fn lemma_subtree_trans(j: int, a: int, p: int)
    requires
        in_subtree(j, a),
        in_subtree(a, p),
    ensures
        in_subtree(j, p),
    decreases j,
{
    if j != a {
        lemma_subtree_trans(up(j), a, p);
    }
}

/// An empty subtree stands for a leaf and is clean.
pub proof fn lemma_empty_is_leaf<V>(s: Seq<Option<V>>, i: int)
    requires
        empty_below(s, i),
    ensures
        tree_of(s, i) == Tree::<V>::Leaf,
        cell_at(s, i) is None,
        clean(s, i),
{
    reveal(empty_below);
    reveal(clean);
    if 0 <= i {
        assert(in_subtree(i, i));
    }
}

/// Below a slot that lies outside the array everything is empty.
pub proof fn lemma_empty_outside<V>(s: Seq<Option<V>>, i: int)
    requires
        s.len() <= i,
    ensures
        empty_below(s, i),
{
    reveal(empty_below);
}

/// A subtree is empty when its root and the subtrees of both children are.
pub proof fn lemma_empty_from_children<V>(s: Seq<Option<V>>, i: int)
    requires
        0 <= i,
        cell_at(s, i) is None,
        empty_below(s, left(i)),
        empty_below(s, right(i)),
    ensures
        empty_below(s, i),
{
    reveal(empty_below);
    assert forall|j: int| #[trigger] in_subtree(j, i) implies cell_at(s, j) is None by {
        if j != i {
            lemma_subtree_split(j, i);
        }
    }
}

/// The subtrees of the children of an empty subtree are empty.
pub proof fn lemma_empty_children<V>(s: Seq<Option<V>>, i: int)
    requires
        0 <= i,
        empty_below(s, i),
    ensures
        empty_below(s, left(i)),
        empty_below(s, right(i)),
{
    reveal(empty_below);
    assert forall|j: int| #[trigger] in_subtree(j, left(i)) implies cell_at(s, j) is None by {
        lemma_subtree_of_child(j, i);
    }
    assert forall|j: int| #[trigger] in_subtree(j, right(i)) implies cell_at(s, j) is None by {
        lemma_subtree_of_child(j, i);
    }
}

/// The subtrees of the children of a clean subtree are clean.
pub proof fn lemma_clean_children<V>(s: Seq<Option<V>>, i: int)
    requires
        0 <= i,
        clean(s, i),
    ensures
        clean(s, left(i)),
        clean(s, right(i)),
{
    reveal(clean);
    assert forall|j: int|
        #[trigger] in_subtree(j, left(i)) && j != left(i) && cell_at(s, j) is Some implies cell_at(
        s,
        up(j),
    ) is Some by {
        lemma_subtree_of_child(j, i);
    }
    assert forall|j: int|
        #[trigger] in_subtree(j, right(i)) && j != right(i) && cell_at(s, j) is Some implies cell_at(
        s,
        up(j),
    ) is Some by {
        lemma_subtree_of_child(j, i);
    }
}

/// An occupied slot over two clean subtrees roots a clean subtree.
pub proof fn lemma_clean_from_children<V>(s: Seq<Option<V>>, i: int)
    requires
        0 <= i,
        cell_at(s, i) is Some,
        clean(s, left(i)),
        clean(s, right(i)),
    ensures
        clean(s, i),
{
    reveal(clean);
    assert forall|j: int|
        #[trigger] in_subtree(j, i) && j != i && cell_at(s, j) is Some implies cell_at(
        s,
        up(j),
    ) is Some by {
        lemma_subtree_split(j, i);
        assert(up(left(i)) == i);
        assert(up(right(i)) == i);
    }
}

/// A subtree of a clean subtree is clean.
pub proof fn lemma_clean_within<V>(s: Seq<Option<V>>, i: int, j: int)
    requires
        clean(s, i),
        in_subtree(j, i),
    ensures
        clean(s, j),
{
    reveal(clean);
    assert forall|k: int|
        #[trigger] in_subtree(k, j) && k != j && cell_at(s, k) is Some implies cell_at(
        s,
        up(k),
    ) is Some by {
        lemma_subtree_trans(k, j, i);
    }
}

/// A clean subtree with an empty root is empty.
pub proof fn lemma_clean_empty<V>(s: Seq<Option<V>>, i: int)
    requires
        clean(s, i),
        cell_at(s, i) is None,
    ensures
        empty_below(s, i),
{
    reveal(empty_below);
    assert forall|j: int| #[trigger] in_subtree(j, i) implies cell_at(s, j) is None by {
        lemma_clean_empty_at(s, i, j);
    }
}

proof fn lemma_clean_empty_at<V>(s: Seq<Option<V>>, i: int, j: int)
    requires
        clean(s, i),
        cell_at(s, i) is None,
        in_subtree(j, i),
    ensures
        cell_at(s, j) is None,
    decreases j,
{
    reveal(clean);
    if j != i {
        lemma_clean_empty_at(s, i, up(j));
    }
}

/// The tree at an occupied slot has the trees at its children as subtrees.
pub proof fn lemma_tree_unfold<V>(s: Seq<Option<V>>, i: int)
    requires
        cell_at(s, i) is Some,
    ensures
        tree_of(s, i) == Tree::Node(
            Box::new(tree_of(s, left(i))),
            cell_at(s, i).unwrap(),
            Box::new(tree_of(s, right(i))),
        ),
        tree_of(s, i).height() > tree_of(s, left(i)).height(),
        tree_of(s, i).height() > tree_of(s, right(i)).height(),
{
}

/// The tree at a slot is a node exactly where the slot is occupied.
pub proof fn lemma_tree_stored<V>(s: Seq<Option<V>>, i: int)
    ensures
        cell_at(s, i) is Some <==> tree_of(s, i) is Node,
        cell_at(s, i) is Some ==> tree_of(s, i)->1 == cell_at(s, i).unwrap(),
{
}

/// The subtree rooted at slot `i` of `s` reaches no further down than `s` does.
pub proof fn lemma_height_fits<V>(s: Seq<Option<V>>, i: int, h: nat)
    requires
        0 <= i,
        s.len() <= capacity_of(h),
    ensures
        tree_of(s, i) is Node ==> level(i) < h,
        level(i) + tree_of(s, i).height() <= h || tree_of(s, i) is Leaf,
    decreases
        (if i < s.len() {
            s.len() - i
        } else {
            0
        }),
{
    if cell_at(s, i) is Some {
        lemma_level_capacity(i, h);
        lemma_level_of_child(i);
        lemma_height_fits(s, left(i), h);
        lemma_height_fits(s, right(i), h);
        let l = tree_of(s, left(i));
        let r = tree_of(s, right(i));
        assert(tree_of(s, i) == Tree::Node(Box::new(l), s[i].unwrap(), Box::new(r)));
        assert(l is Leaf ==> l.height() == 0);
        assert(r is Leaf ==> r.height() == 0);
    }
}

/// In a clean subtree every occupied slot lies above the height of the tree.
pub proof fn lemma_occupied_within_height<V>(s: Seq<Option<V>>, i: int, j: int)
    requires
        0 <= i,
        clean(s, i),
        in_subtree(j, i),
        cell_at(s, j) is Some,
    ensures
        level(j) < level(i) + tree_of(s, i).height(),
    decreases s.len() - i,
{
    if cell_at(s, i) is None {
        lemma_clean_empty(s, i);
        lemma_empty_at(s, i, j);
    } else if j != i {
        lemma_subtree_split(j, i);
        lemma_clean_children(s, i);
        lemma_level_of_child(i);
        if in_subtree(j, left(i)) {
            lemma_occupied_within_height(s, left(i), j);
        } else {
            lemma_occupied_within_height(s, right(i), j);
        }
    }
}

/// Every slot is in the subtree of the root.
pub proof fn lemma_all_under_root(j: int)
    requires
        0 <= j,
    ensures
        in_subtree(j, 0),
    decreases j,
{
    if j > 0 {
        lemma_all_under_root(up(j));
    }
}

} // verus!
