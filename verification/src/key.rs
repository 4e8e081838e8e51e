use vstd::prelude::*;

verus! {

/// The outcome of comparing two keys.
#[derive(Debug, Clone, Copy, PartialEq, Eq, Structural)]
pub enum KeyOrder {
    Less,
    Equal,
    Greater,
}

/// Keys of a splay tree: a total order, given by an integer rank that is
/// injective, with an executable three-way comparison that agrees with it.
pub trait OrderedKey: Sized {
    /// The position of this key in the total order.
    spec fn rank(&self) -> int;

    /// Compares `self` with `other` by rank.
    fn compare(&self, other: &Self) -> (c: KeyOrder)
        ensures
            c == KeyOrder::Less <==> self.rank() < other.rank(),
            c == KeyOrder::Equal <==> self.rank() == other.rank(),
            c == KeyOrder::Greater <==> self.rank() > other.rank(),
    ;

    /// An exact copy of the key.
    fn clone_key(&self) -> (c: Self)
        ensures
            c == *self,
    ;

    /// Two keys of equal rank are the same key.
    proof fn lemma_rank_injective(a: Self, b: Self)
        requires
            a.rank() == b.rank(),
        ensures
            a == b,
    ;
}

impl OrderedKey for i8 {
    open spec fn rank(&self) -> int {
        *self as int
    }

    fn compare(&self, other: &Self) -> (c: KeyOrder) {
        if *self < *other {
            KeyOrder::Less
        } else if *self == *other {
            KeyOrder::Equal
        } else {
            KeyOrder::Greater
        }
    }

    fn clone_key(&self) -> (c: Self) {
        *self
    }

    proof fn lemma_rank_injective(a: Self, b: Self) {
    }
}

impl OrderedKey for i16 {
    open spec fn rank(&self) -> int {
        *self as int
    }

    fn compare(&self, other: &Self) -> (c: KeyOrder) {
        if *self < *other {
            KeyOrder::Less
        } else if *self == *other {
            KeyOrder::Equal
        } else {
            KeyOrder::Greater
        }
    }

    fn clone_key(&self) -> (c: Self) {
        *self
    }

    proof fn lemma_rank_injective(a: Self, b: Self) {
    }
}

impl OrderedKey for i32 {
    open spec fn rank(&self) -> int {
        *self as int
    }

    fn compare(&self, other: &Self) -> (c: KeyOrder) {
        if *self < *other {
            KeyOrder::Less
        } else if *self == *other {
            KeyOrder::Equal
        } else {
            KeyOrder::Greater
        }
    }

    fn clone_key(&self) -> (c: Self) {
        *self
    }

    proof fn lemma_rank_injective(a: Self, b: Self) {
    }
}

impl OrderedKey for i64 {
    open spec fn rank(&self) -> int {
        *self as int
    }

    fn compare(&self, other: &Self) -> (c: KeyOrder) {
        if *self < *other {
            KeyOrder::Less
        } else if *self == *other {
            KeyOrder::Equal
        } else {
            KeyOrder::Greater
        }
    }

    fn clone_key(&self) -> (c: Self) {
        *self
    }

    proof fn lemma_rank_injective(a: Self, b: Self) {
    }
}

impl OrderedKey for isize {
    open spec fn rank(&self) -> int {
        *self as int
    }

    fn compare(&self, other: &Self) -> (c: KeyOrder) {
        if *self < *other {
            KeyOrder::Less
        } else if *self == *other {
            KeyOrder::Equal
        } else {
            KeyOrder::Greater
        }
    }

    fn clone_key(&self) -> (c: Self) {
        *self
    }

    proof fn lemma_rank_injective(a: Self, b: Self) {
    }
}

impl OrderedKey for u8 {
    open spec fn rank(&self) -> int {
        *self as int
    }

    fn compare(&self, other: &Self) -> (c: KeyOrder) {
        if *self < *other {
            KeyOrder::Less
        } else if *self == *other {
            KeyOrder::Equal
        } else {
            KeyOrder::Greater
        }
    }

    fn clone_key(&self) -> (c: Self) {
        *self
    }

    proof fn lemma_rank_injective(a: Self, b: Self) {
    }
}

impl OrderedKey for u16 {
    open spec fn rank(&self) -> int {
        *self as int
    }

    fn compare(&self, other: &Self) -> (c: KeyOrder) {
        if *self < *other {
            KeyOrder::Less
        } else if *self == *other {
            KeyOrder::Equal
        } else {
            KeyOrder::Greater
        }
    }

    fn clone_key(&self) -> (c: Self) {
        *self
    }

    proof fn lemma_rank_injective(a: Self, b: Self) {
    }
}

impl OrderedKey for u32 {
    open spec fn rank(&self) -> int {
        *self as int
    }

    fn compare(&self, other: &Self) -> (c: KeyOrder) {
        if *self < *other {
            KeyOrder::Less
        } else if *self == *other {
            KeyOrder::Equal
        } else {
            KeyOrder::Greater
        }
    }

    fn clone_key(&self) -> (c: Self) {
        *self
    }

    proof fn lemma_rank_injective(a: Self, b: Self) {
    }
}

impl OrderedKey for u64 {
    open spec fn rank(&self) -> int {
        *self as int
    }

    fn compare(&self, other: &Self) -> (c: KeyOrder) {
        if *self < *other {
            KeyOrder::Less
        } else if *self == *other {
            KeyOrder::Equal
        } else {
            KeyOrder::Greater
        }
    }

    fn clone_key(&self) -> (c: Self) {
        *self
    }

    proof fn lemma_rank_injective(a: Self, b: Self) {
    }
}

impl OrderedKey for usize {
    open spec fn rank(&self) -> int {
        *self as int
    }

    fn compare(&self, other: &Self) -> (c: KeyOrder) {
        if *self < *other {
            KeyOrder::Less
        } else if *self == *other {
            KeyOrder::Equal
        } else {
            KeyOrder::Greater
        }
    }

    fn clone_key(&self) -> (c: Self) {
        *self
    }

    proof fn lemma_rank_injective(a: Self, b: Self) {
    }
}

} // verus!
