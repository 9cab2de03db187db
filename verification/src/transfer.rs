use vstd::prelude::*;
use crate::index::{in_subtree, left, lemma_level_of_child, level, parent, right, up};
use crate::slots::{cell_at, clean, lemma_clean_empty, lemma_empty_at, tree_of};

verus! {

/// The slot that lies under `to` where `j` lies under `from`: `to` itself for
/// `from`, and the left or right child of the image of the parent of `j` as
/// `j` is a left or right child.
pub open spec fn image(j: int, from: int, to: int) -> int
    decreases j,
{
    if j <= from || j <= 0 {
        to
    } else if j % 2 == 1 {
        left(image(up(j), from, to))
    } else {
        right(image(up(j), from, to))
    }
}

/// What slot `x` holds once the subtree rooted at `from` has moved to `to`:
/// what its source held, where an occupied slot maps to it; nothing, where it
/// is a slot of the subtree that nothing maps to; what it held before,
/// anywhere else.
pub open spec fn moved<V>(s: Seq<Option<V>>, from: int, to: int, x: int) -> Option<V> {
    if in_subtree(x, to) && cell_at(s, image(x, to, from)) is Some {
        cell_at(s, image(x, to, from))
    } else if in_subtree(x, from) {
        None
    } else {
        cell_at(s, x)
    }
}

/// What slot `x` holds when only the slots before `lo` and after `hi` have
/// moved.
pub open spec fn moved_outside<V>(
    s: Seq<Option<V>>,
    from: int,
    to: int,
    lo: int,
    hi: int,
    x: int,
) -> Option<V> {
    let o = image(x, to, from);
    if in_subtree(x, to) && (o < lo || o > hi) && cell_at(s, o) is Some {
        cell_at(s, o)
    } else if in_subtree(x, from) && (x < lo || x > hi) {
        None
    } else {
        cell_at(s, x)
    }
}

/// Whether `cur` is `s` with the slots before `lo` and after `hi` moved.
#[verifier::opaque]
pub open spec fn moved_but<V>(
    s: Seq<Option<V>>,
    cur: Seq<Option<V>>,
    from: int,
    to: int,
    lo: int,
    hi: int,
) -> bool {
    forall|x: int| #[trigger] cell_at(cur, x) == moved_outside(s, from, to, lo, hi, x)
}

/// The image of a slot under `a` lies under `b`, as deep below `b` as the
/// slot lies below `a`, and maps back to the slot.
pub proof fn lemma_image_under(j: int, a: int, b: int)
    requires
        0 <= a,
        0 <= b,
        in_subtree(j, a),
    ensures
        in_subtree(image(j, a, b), b),
        image(image(j, a, b), b, a) == j,
        level(image(j, a, b)) + level(a) == level(j) + level(b),
        j != a ==> image(j, a, b) > b,
    decreases j,
{
    if j != a {
        let u = up(j);
        lemma_image_under(u, a, b);
        let q = image(u, a, b);
        lemma_level_of_child(q);
        lemma_level_of_child(u);
        if j % 2 == 1 {
            assert(j == left(u));
            assert(up(left(q)) == q);
            assert(in_subtree(left(q), b));
        } else {
            assert(j == right(u));
            assert(up(right(q)) == q);
            assert(in_subtree(right(q), b));
        }
    } else {
        assert(in_subtree(b, b));
    }
}

/// The image of a slot lies after it when the target lies after the source,
/// before it when the target lies before, and is the slot itself when the two
/// are the same.
pub proof fn lemma_image_order(j: int, a: int, b: int)
    requires
        0 <= a,
        0 <= b,
        in_subtree(j, a),
    ensures
        a < b ==> j < image(j, a, b),
        b < a ==> image(j, a, b) < j,
        a == b ==> image(j, a, b) == j,
    decreases j,
{
    if j != a {
        lemma_image_order(up(j), a, b);
    }
}

/// With nothing moved yet, every slot holds what it held.
pub proof fn lemma_moved_none<V>(s: Seq<Option<V>>, cur: Seq<Option<V>>, from: int, to: int, hi: int)
    requires
        0 <= from,
        0 <= to,
        hi >= s.len() - 1,
        forall|x: int| cell_at(cur, x) == cell_at(s, x),
    ensures
        moved_but(s, cur, from, to, from, hi),
{
    reveal(moved_but);
    assert forall|x: int| #[trigger] cell_at(cur, x) == moved_outside(s, from, to, from, hi, x) by {
        if in_subtree(x, to) {
            lemma_image_under(x, to, from);
        }
    }
}

/// With every slot moved, each slot holds what the move leaves in it.
pub proof fn lemma_moved_all<V>(
    s: Seq<Option<V>>,
    cur: Seq<Option<V>>,
    from: int,
    to: int,
    lo: int,
    hi: int,
    x: int,
)
    requires
        moved_but(s, cur, from, to, lo, hi),
        hi < lo,
    ensures
        cell_at(cur, x) == moved(s, from, to, x),
{
    reveal(moved_but);
}

/// Where the subtree is empty, or the target is the source, the move leaves
/// every slot as it was.
pub proof fn lemma_moved_nothing<V>(s: Seq<Option<V>>, from: int, to: int, x: int)
    requires
        0 <= from,
        0 <= to,
        from == to || (clean(s, from) && cell_at(s, from) is None),
    ensures
        moved(s, from, to, x) == cell_at(s, x),
{
    if in_subtree(x, to) {
        lemma_image_under(x, to, from);
        lemma_image_order(x, to, from);
    }
    if from != to {
        lemma_clean_empty(s, from);
        if in_subtree(x, to) {
            lemma_empty_at(s, from, image(x, to, from));
        }
        if in_subtree(x, from) {
            lemma_empty_at(s, from, x);
        }
    }
}

/// Whether every slot that an occupied slot of the subtree rooted at `from`
/// maps to under `to` is empty or a slot of that subtree.
pub open spec fn makes_way<V>(s: Seq<Option<V>>, from: int, to: int) -> bool {
    forall|j: int|
        in_subtree(j, from) && #[trigger] cell_at(s, j) is Some ==> cell_at(
            s,
            image(j, from, to),
        ) is None || in_subtree(image(j, from, to), from)
}

/// A slot of the subtree that has not moved yet holds what it held.
pub proof fn lemma_move_pending<V>(
    s: Seq<Option<V>>,
    cur: Seq<Option<V>>,
    from: int,
    to: int,
    lo: int,
    hi: int,
    i: int,
)
    requires
        0 <= from <= i,
        0 <= to,
        from != to,
        moved_but(s, cur, from, to, lo, hi),
        to > from ==> lo == from && hi == i,
        to < from ==> lo == i && hi >= s.len() - 1,
    ensures
        in_subtree(i, from) ==> cell_at(cur, i) == cell_at(s, i),
{
    reveal(moved_but);
    if in_subtree(i, to) {
        lemma_image_under(i, to, from);
        lemma_image_order(image(i, to, from), from, to);
    }
    assert(cell_at(cur, i) == moved_outside(s, from, to, lo, hi, i));
}

/// One step of a move: slot `i` is next, after the slots behind it when the
/// target lies behind the source, after those before it otherwise. If it is
/// an occupied slot of the subtree, its image takes what it holds and it is
/// emptied; else nothing changes.
pub proof fn lemma_move_step<V>(
    s: Seq<Option<V>>,
    cur: Seq<Option<V>>,
    next: Seq<Option<V>>,
    from: int,
    to: int,
    lo: int,
    hi: int,
    i: int,
)
    requires
        0 <= from <= i,
        0 <= to,
        from != to,
        moved_but(s, cur, from, to, lo, hi),
        to > from ==> lo == from && hi == i,
        to < from ==> lo == i && hi >= s.len() - 1,
        in_subtree(i, from) && cell_at(cur, i) is Some ==> i < cur.len() && image(i, from, to)
            < cur.len() && next == cur.update(image(i, from, to), cell_at(cur, i)).update(i, None),
        !(in_subtree(i, from) && cell_at(cur, i) is Some) ==> next == cur,
    ensures
        to > from ==> moved_but(s, next, from, to, lo, i - 1),
        to < from ==> moved_but(s, next, from, to, i + 1, hi),
{
    lemma_move_pending(s, cur, from, to, lo, hi, i);
    reveal(moved_but);
    let lo2 = if to > from {
        lo
    } else {
        i + 1
    };
    let hi2 = if to > from {
        i - 1
    } else {
        hi
    };
    let source = in_subtree(i, from) && cell_at(s, i) is Some;
    let t = image(i, from, to);
    if in_subtree(i, from) {
        lemma_image_under(i, from, to);
        lemma_image_order(i, from, to);
    }
    if in_subtree(i, to) {
        lemma_image_under(i, to, from);
        lemma_image_order(image(i, to, from), from, to);
    }
    assert forall|x: int| #[trigger] cell_at(next, x) == moved_outside(
        s,
        from,
        to,
        lo2,
        hi2,
        x,
    ) by {
        assert(cell_at(cur, x) == moved_outside(s, from, to, lo, hi, x));
        if in_subtree(x, to) {
            lemma_image_under(x, to, from);
        }
        if source && x == t {
        } else if x == i {
        } else {
            assert(cell_at(next, x) == cell_at(cur, x));
        }
    }
}

/// Whether every slot under `to` is empty or a slot of the subtree rooted
/// at `from`.
pub open spec fn free_under<V>(s: Seq<Option<V>>, from: int, to: int) -> bool {
    forall|j: int| #[trigger] in_subtree(j, to) ==> cell_at(s, j) is None || in_subtree(j, from)
}

/// Where every slot under `to` is empty or a slot of the subtree rooted at
/// `from`, the slots after the move stand at `to` for the tree for which
/// they stood at `from` before it.
pub proof fn law_moved_tree<V>(s: Seq<Option<V>>, after: Seq<Option<V>>, from: int, to: int, x: int)
    requires
        0 <= from,
        0 <= to,
        forall|j: int| cell_at(after, j) == moved(s, from, to, j),
        free_under(s, from, to),
        in_subtree(x, to),
    ensures
        tree_of(after, x) == tree_of(s, image(x, to, from)),
    decreases
        (if x < after.len() {
            after.len() - x
        } else {
            0
        }),
{
    let o = image(x, to, from);
    lemma_image_under(x, to, from);
    assert(cell_at(after, x) == moved(s, from, to, x));
    assert(cell_at(after, x) == cell_at(s, o));
    if cell_at(after, x) is Some {
        assert(up(left(x)) == x && up(right(x)) == x);
        assert(in_subtree(left(x), to) && in_subtree(right(x), to));
        assert(image(left(x), to, from) == left(o));
        assert(image(right(x), to, from) == right(o));
        law_moved_tree(s, after, from, to, left(x));
        law_moved_tree(s, after, from, to, right(x));
    }
}

/// The slot that lies under `to` where `j` lies under `from`.
pub fn image_of(j: usize, from: usize, to: usize) -> (r: usize)
    requires
        in_subtree(j as int, from as int),
        image(j as int, from as int, to as int) <= usize::MAX,
    ensures
        r == image(j as int, from as int, to as int),
    decreases j,
{
    if j == from {
        to
    } else {
        proof {
            lemma_image_under(up(j as int), from as int, to as int);
        }
        let above: usize = image_of(parent(j), from, to);
        if j % 2 == 1 {
            2 * above + 1
        } else {
            2 * above + 2
        }
    }
}

/// Whether slot `j` lies in the subtree rooted at slot `from`.
pub fn is_under(j: usize, from: usize) -> (b: bool)
    ensures
        b == in_subtree(j as int, from as int),
{
    let mut k: usize = j;
    while k > from
        invariant
            k <= j,
            in_subtree(k as int, from as int) == in_subtree(j as int, from as int),
        decreases k,
    {
        k = parent(k);
    }
    k == from
}

/// The number of steps from the root down to slot `index`.
pub fn level_of(index: usize) -> (r: usize)
    ensures
        r == level(index as int),
{
    let mut k: usize = index;
    let mut r: usize = 0;
    while k > 0
        invariant
            r + k <= index,
            level(index as int) == r + level(k as int),
        decreases k,
    {
        k = parent(k);
        r = r + 1;
    }
    r
}

} // verus!
