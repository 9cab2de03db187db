use vstd::prelude::*;

verus! {

/// The largest number of levels a tree may have. With it every slot index,
/// and every child index computed from one, fits in 32 bits.
pub const MAX_HEIGHT: u32 = 31;

/// Index of the left child of slot `i`.
pub open spec fn left(i: int) -> int {
    2 * i + 1
}

/// Index of the right child of slot `i`.
pub open spec fn right(i: int) -> int {
    2 * i + 2
}

/// Index of the parent of slot `i`, for `i > 0`.
pub open spec fn up(i: int) -> int {
    (i - 1) / 2
}

/// Number of slots of a tree with `h` complete levels, `2^h - 1`.
pub open spec fn capacity_of(h: nat) -> nat
    decreases h,
{
    if h == 0 {
        0
    } else {
        2 * capacity_of((h - 1) as nat) + 1
    }
}

/// The level of slot `i`: 0 for the root, one more for each step down.
pub open spec fn level(i: int) -> nat
    decreases i,
{
    if i <= 0 {
        0
    } else {
        level(up(i)) + 1
    }
}

/// Whether slot `j` lies in the subtree rooted at slot `i`.
pub open spec fn in_subtree(j: int, i: int) -> bool
    decreases j,
{
    0 <= i <= j && (j == i || in_subtree(up(j), i))
}

/// Whether the subtrees rooted at `a` and `b` share no slot.
#[verifier::opaque]
pub open spec fn apart(a: int, b: int) -> bool {
    forall|j: int| !(#[trigger] in_subtree(j, a) && #[trigger] in_subtree(j, b))
}

/// The side of a node on which a child hangs, and the direction of a rotation.
#[derive(Clone, Copy, Debug, PartialEq, Eq, Structural)]
pub enum Direction {
    LEFT,
    RIGHT,
}

impl Direction {
    /// The other direction.
    pub open spec fn flip(self) -> Direction {
        match self {
            Direction::LEFT => Direction::RIGHT,
            Direction::RIGHT => Direction::LEFT,
        }
    }

    /// Index of the child of `i` on this side.
    pub open spec fn near(self, i: int) -> int {
        match self {
            Direction::LEFT => left(i),
            Direction::RIGHT => right(i),
        }
    }

    /// Index of the child of `i` on the other side.
    pub open spec fn far(self, i: int) -> int {
        match self {
            Direction::LEFT => right(i),
            Direction::RIGHT => left(i),
        }
    }

    /// The other direction.
    pub fn opposite(self) -> (r: Direction)
        ensures
            r == self.flip(),
    {
        match self {
            Direction::LEFT => Direction::RIGHT,
            Direction::RIGHT => Direction::LEFT,
        }
    }

    /// The child of `idx` on this side.
    pub fn towards(self, idx: usize) -> (r: usize)
        requires
            2 * idx + 2 <= usize::MAX,
        ensures
            r == self.near(idx as int),
    {
        match self {
            Direction::LEFT => left_child(idx),
            Direction::RIGHT => right_child(idx),
        }
    }

    /// The child of `idx` on the other side.
    pub fn against(self, idx: usize) -> (r: usize)
        requires
            2 * idx + 2 <= usize::MAX,
        ensures
            r == self.far(idx as int),
    {
        match self {
            Direction::LEFT => right_child(idx),
            Direction::RIGHT => left_child(idx),
        }
    }

    /// The two sides of a rotation in the direction `dir`: first the side
    /// towards which the pivot goes, the child that `towards` gives, then
    /// the side from which its place is taken, the child that `against` gives.
    pub fn get_direction_func(dir: Direction) -> (sides: (Direction, Direction))
        ensures
            sides.0 == dir,
            sides.1 == dir.flip(),
    {
        (dir, dir.opposite())
    }
}

impl From<bool> for Direction {
    /// `LEFT` for `true`, `RIGHT` for `false`.
    fn from(b: bool) -> (r: Direction) {
        if b {
            Direction::LEFT
        } else {
            Direction::RIGHT
        }
    }
}

impl vstd::std_specs::convert::FromSpecImpl<bool> for Direction {
    open spec fn obeys_from_spec() -> bool {
        true
    }

    open spec fn from_spec(b: bool) -> Direction {
        if b {
            Direction::LEFT
        } else {
            Direction::RIGHT
        }
    }
}

/// The side on which slot `i`, not the root, hangs under its parent.
pub open spec fn side_of(i: int) -> Direction {
    if i % 2 == 1 {
        Direction::LEFT
    } else {
        Direction::RIGHT
    }
}

/// The other child of the parent of slot `i`, for `i > 0`.
pub open spec fn sibling(i: int) -> int {
    side_of(i).far(up(i))
}

/// The side on which `idx`, not the root, hangs under its parent.
pub fn side(idx: usize) -> (r: Direction)
    requires
        idx > 0,
    ensures
        r == side_of(idx as int),
        idx == r.near(up(idx as int)),
{
    Direction::from(idx % 2 == 1)
}

/// The left child of `idx`.
pub fn left_child(idx: usize) -> (r: usize)
    requires
        2 * idx + 1 <= usize::MAX,
    ensures
        r == left(idx as int),
{
    2 * idx + 1
}

/// The right child of `idx`.
pub fn right_child(idx: usize) -> (r: usize)
    requires
        2 * idx + 2 <= usize::MAX,
    ensures
        r == right(idx as int),
{
    2 * idx + 2
}

/// The parent of `idx`.
pub fn parent(idx: usize) -> (r: usize)
    requires
        idx > 0,
    ensures
        r == up(idx as int),
        r < idx,
{
    (idx - 1) / 2
}

/// Number of slots of a tree with `height` levels.
pub fn capacity(height: u32) -> (r: u32)
    requires
        height <= MAX_HEIGHT,
    ensures
        r == capacity_of(height as nat),
{
    let mut r: u32 = 0;
    let mut h: u32 = 0;
    while h < height
        invariant
            h <= height <= MAX_HEIGHT,
            r == capacity_of(h as nat),
            r + 1 <= pow2_small(h as nat),
        decreases height - h,
    {
        proof {
            lemma_pow2_small_bound(h as nat);
        }
        r = 2 * r + 1;
        h = h + 1;
    }
    r
}

/// `2^k`, used only to bound capacities.
pub open spec fn pow2_small(k: nat) -> nat
    decreases k,
{
    if k == 0 {
        1
    } else {
        2 * pow2_small((k - 1) as nat)
    }
}

/// `2^k` for `k` below `MAX_HEIGHT` is at most `2^30`.
pub proof fn lemma_pow2_small_bound(k: nat)
    requires
        k < MAX_HEIGHT,
    ensures
        pow2_small(k) <= 0x4000_0000,
{
    reveal_with_fuel(pow2_small, 32);
}

/// A tree with `h` levels has `2^h - 1` slots.
pub proof fn lemma_capacity_is_pow2(h: nat)
    ensures
        capacity_of(h) + 1 == pow2_small(h),
    decreases h,
{
    if h > 0 {
        lemma_capacity_is_pow2((h - 1) as nat);
    }
}

/// More levels hold more slots.
pub proof fn lemma_capacity_monotonic(a: nat, b: nat)
    requires
        a <= b,
    ensures
        capacity_of(a) <= capacity_of(b),
    decreases b,
{
    if a < b {
        lemma_capacity_monotonic(a, (b - 1) as nat);
    }
}

/// No tree within the height limit has more than `2^31 - 1` slots.
pub proof fn lemma_capacity_bound(h: nat)
    requires
        h <= MAX_HEIGHT,
    ensures
        capacity_of(h) <= 0x7fff_ffff,
{
    lemma_capacity_monotonic(h, MAX_HEIGHT as nat);
    lemma_capacity_is_pow2(MAX_HEIGHT as nat);
    reveal_with_fuel(pow2_small, 32);
}

/// A slot above the last level that the height limit allows has an index
/// below `2^31 - 1`, so that the indices of its children fit in 32 bits.
pub proof fn lemma_index_bound(i: int)
    requires
        0 <= i,
        level(i) < MAX_HEIGHT,
    ensures
        i < 0x7fff_ffff,
{
    lemma_level_capacity(i, MAX_HEIGHT as nat);
    lemma_capacity_bound(MAX_HEIGHT as nat);
}

/// Slot `i` is among the first `h` levels exactly when its level is below `h`.
pub proof fn lemma_level_capacity(i: int, h: nat)
    requires
        0 <= i,
    ensures
        i < capacity_of(h) <==> level(i) < h,
    decreases i,
{
    if i > 0 && h > 0 {
        lemma_level_capacity(up(i), (h - 1) as nat);
    }
}

/// A slot of the subtree rooted at a child of `i` is in the subtree rooted at `i`.
pub proof fn lemma_subtree_of_child(j: int, i: int)
    requires
        0 <= i,
        in_subtree(j, left(i)) || in_subtree(j, right(i)),
    ensures
        in_subtree(j, i),
        j != i,
    decreases j,
{
    assert(in_subtree(i, i));
    if j != left(i) && j != right(i) {
        lemma_subtree_of_child(up(j), i);
    }
}

/// A slot of the subtree rooted at `i`, other than `i`, is in the subtree of
/// one of its children.
pub proof fn lemma_subtree_split(j: int, i: int)
    requires
        in_subtree(j, i),
        j != i,
    ensures
        in_subtree(j, left(i)) || in_subtree(j, right(i)),
    decreases j,
{
    if up(j) != i {
        lemma_subtree_split(up(j), i);
    }
}

/// The subtrees of the two children of a slot share no slot.
pub proof fn lemma_children_apart(i: int)
    requires
        0 <= i,
    ensures
        apart(left(i), right(i)),
        apart(right(i), left(i)),
{
    reveal(apart);
    assert forall|j: int| !(#[trigger] in_subtree(j, left(i)) && #[trigger] in_subtree(
        j,
        right(i),
    )) by {
        lemma_children_apart_at(j, i);
    }
}

proof fn lemma_children_apart_at(j: int, i: int)
    requires
        0 <= i,
    ensures
        !(in_subtree(j, left(i)) && in_subtree(j, right(i))),
    decreases j,
{
    if in_subtree(j, left(i)) && in_subtree(j, right(i)) {
        if j == left(i) {
        } else if j == right(i) {
            assert(up(j) == i);
            assert(!in_subtree(i, left(i)));
        } else {
            lemma_children_apart_at(up(j), i);
        }
    }
}

/// Subtrees that are apart stay so when one is narrowed to a child.
pub proof fn lemma_apart_child(a: int, b: int)
    requires
        0 <= a,
        apart(a, b),
    ensures
        apart(left(a), b),
        apart(right(a), b),
        apart(b, left(a)),
        apart(b, right(a)),
{
    reveal(apart);
    assert forall|j: int| !(#[trigger] in_subtree(j, left(a)) && #[trigger] in_subtree(j, b)) by {
        if in_subtree(j, left(a)) {
            lemma_subtree_of_child(j, a);
        }
    }
    assert forall|j: int| !(#[trigger] in_subtree(j, right(a)) && #[trigger] in_subtree(j, b)) by {
        if in_subtree(j, right(a)) {
            lemma_subtree_of_child(j, a);
        }
    }
}

/// Being apart does not depend on the order of the two roots.
pub proof fn lemma_apart_symmetric(a: int, b: int)
    requires
        apart(a, b),
    ensures
        apart(b, a),
{
    reveal(apart);
}

/// No slot lies in both of two subtrees that are apart; in particular
/// neither root lies in the other subtree, and the roots differ.
pub proof fn lemma_apart_at(a: int, b: int, j: int)
    requires
        apart(a, b),
    ensures
        !(in_subtree(j, a) && in_subtree(j, b)),
        0 <= b ==> !in_subtree(b, a),
        0 <= a ==> !in_subtree(a, b),
        0 <= a ==> a != b,
{
    reveal(apart);
    if 0 <= a {
        assert(in_subtree(a, a));
    }
    if 0 <= b {
        assert(in_subtree(b, b));
    }
}

/// A slot is not in the subtree of either of its children.
pub proof fn lemma_not_under_child(i: int)
    requires
        0 <= i,
    ensures
        !in_subtree(i, left(i)),
        !in_subtree(i, right(i)),
{
}

/// Where the subtrees rooted at `a` and `b` are apart, so are those rooted
/// at their children, in every pairing.
pub proof fn lemma_apart_grid(a: int, b: int)
    requires
        0 <= a,
        0 <= b,
        apart(a, b),
    ensures
        apart(b, a),
        apart(left(a), b),
        apart(right(a), b),
        apart(a, left(b)),
        apart(a, right(b)),
        apart(left(b), a),
        apart(right(b), a),
        apart(b, left(a)),
        apart(b, right(a)),
        apart(left(a), left(b)),
        apart(left(a), right(b)),
        apart(right(a), left(b)),
        apart(right(a), right(b)),
        apart(left(b), left(a)),
        apart(left(b), right(a)),
        apart(right(b), left(a)),
        apart(right(b), right(a)),
        apart(left(a), right(a)),
        apart(right(a), left(a)),
        apart(left(b), right(b)),
        apart(right(b), left(b)),
{
    lemma_apart_symmetric(a, b);
    lemma_apart_child(a, b);
    lemma_apart_child(b, a);
    lemma_apart_child(b, left(a));
    lemma_apart_child(b, right(a));
    lemma_children_apart(a);
    lemma_children_apart(b);
}

/// Each step down adds one to the level.
pub proof fn lemma_level_of_child(i: int)
    requires
        0 <= i,
    ensures
        level(left(i)) == level(i) + 1,
        level(right(i)) == level(i) + 1,
{
    assert(up(left(i)) == i);
    assert(up(right(i)) == i);
}

} // verus!
