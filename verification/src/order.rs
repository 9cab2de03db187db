use vstd::prelude::*;

verus! {

/// A key type whose order is that of the integers.
///
/// Every key has a rank, no two keys share one, and the executable
/// comparisons agree with the order of the ranks. All ordering arguments in
/// this crate are therefore plain integer arithmetic.
pub trait Ordered: Copy {
    /// The integer that stands for this key in the order.
    spec fn rank(self) -> int;

    /// Distinct keys have distinct ranks.
    proof fn rank_is_injective(a: Self, b: Self)
        requires
            a.rank() == b.rank(),
        ensures
            a == b,
    ;

    /// `self > other` in the order of the ranks.
    fn exceeds(&self, other: &Self) -> (r: bool)
        ensures
            r == (self.rank() > other.rank()),
    ;

    /// `self == other`.
    fn same_as(&self, other: &Self) -> (r: bool)
        ensures
            r == (self.rank() == other.rank()),
    ;
}

impl Ordered for u8 {
    open spec fn rank(self) -> int {
        self as int
    }

    proof fn rank_is_injective(a: Self, b: Self) {
    }

    fn exceeds(&self, other: &Self) -> (r: bool) {
        *self > *other
    }

    fn same_as(&self, other: &Self) -> (r: bool) {
        *self == *other
    }
}

impl Ordered for u16 {
    open spec fn rank(self) -> int {
        self as int
    }

    proof fn rank_is_injective(a: Self, b: Self) {
    }

    fn exceeds(&self, other: &Self) -> (r: bool) {
        *self > *other
    }

    fn same_as(&self, other: &Self) -> (r: bool) {
        *self == *other
    }
}

impl Ordered for u32 {
    open spec fn rank(self) -> int {
        self as int
    }

    proof fn rank_is_injective(a: Self, b: Self) {
    }

    fn exceeds(&self, other: &Self) -> (r: bool) {
        *self > *other
    }

    fn same_as(&self, other: &Self) -> (r: bool) {
        *self == *other
    }
}

impl Ordered for u64 {
    open spec fn rank(self) -> int {
        self as int
    }

    proof fn rank_is_injective(a: Self, b: Self) {
    }

    fn exceeds(&self, other: &Self) -> (r: bool) {
        *self > *other
    }

    fn same_as(&self, other: &Self) -> (r: bool) {
        *self == *other
    }
}

impl Ordered for u128 {
    open spec fn rank(self) -> int {
        self as int
    }

    proof fn rank_is_injective(a: Self, b: Self) {
    }

    fn exceeds(&self, other: &Self) -> (r: bool) {
        *self > *other
    }

    fn same_as(&self, other: &Self) -> (r: bool) {
        *self == *other
    }
}

impl Ordered for usize {
    open spec fn rank(self) -> int {
        self as int
    }

    proof fn rank_is_injective(a: Self, b: Self) {
    }

    fn exceeds(&self, other: &Self) -> (r: bool) {
        *self > *other
    }

    fn same_as(&self, other: &Self) -> (r: bool) {
        *self == *other
    }
}

impl Ordered for i8 {
    open spec fn rank(self) -> int {
        self as int
    }

    proof fn rank_is_injective(a: Self, b: Self) {
    }

    fn exceeds(&self, other: &Self) -> (r: bool) {
        *self > *other
    }

    fn same_as(&self, other: &Self) -> (r: bool) {
        *self == *other
    }
}

impl Ordered for i16 {
    open spec fn rank(self) -> int {
        self as int
    }

    proof fn rank_is_injective(a: Self, b: Self) {
    }

    fn exceeds(&self, other: &Self) -> (r: bool) {
        *self > *other
    }

    fn same_as(&self, other: &Self) -> (r: bool) {
        *self == *other
    }
}

impl Ordered for i32 {
    open spec fn rank(self) -> int {
        self as int
    }

    proof fn rank_is_injective(a: Self, b: Self) {
    }

    fn exceeds(&self, other: &Self) -> (r: bool) {
        *self > *other
    }

    fn same_as(&self, other: &Self) -> (r: bool) {
        *self == *other
    }
}

impl Ordered for i64 {
    open spec fn rank(self) -> int {
        self as int
    }

    proof fn rank_is_injective(a: Self, b: Self) {
    }

    fn exceeds(&self, other: &Self) -> (r: bool) {
        *self > *other
    }

    fn same_as(&self, other: &Self) -> (r: bool) {
        *self == *other
    }
}

impl Ordered for i128 {
    open spec fn rank(self) -> int {
        self as int
    }

    proof fn rank_is_injective(a: Self, b: Self) {
    }

    fn exceeds(&self, other: &Self) -> (r: bool) {
        *self > *other
    }

    fn same_as(&self, other: &Self) -> (r: bool) {
        *self == *other
    }
}

impl Ordered for isize {
    open spec fn rank(self) -> int {
        self as int
    }

    proof fn rank_is_injective(a: Self, b: Self) {
    }

    fn exceeds(&self, other: &Self) -> (r: bool) {
        *self > *other
    }

    fn same_as(&self, other: &Self) -> (r: bool) {
        *self == *other
    }
}

impl Ordered for char {
    open spec fn rank(self) -> int {
        self as int
    }

    proof fn rank_is_injective(a: Self, b: Self) {
    }

    fn exceeds(&self, other: &Self) -> (r: bool) {
        *self > *other
    }

    fn same_as(&self, other: &Self) -> (r: bool) {
        *self == *other
    }
}

} // verus!
