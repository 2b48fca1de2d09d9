//! The numeric capability that a cost type has to offer.

use vstd::prelude::*;

verus! {

/// A cost: a non-negative quantity with a zero, an addition and an order.
///
/// Every cost stands for a natural number, its `value`. Contracts speak of
/// that number; the executable methods compute with the cost itself.
pub trait HasZero: Copy {
    /// The natural number that the cost stands for.
    spec fn value(self) -> nat;

    /// The largest value that the type can hold.
    spec fn limit() -> nat;

    /// The cost of standing still.
    fn zero() -> (z: Self)
        ensures
            z.value() == 0,
    ;

    /// The sum of two costs, where the type can hold it.
    fn plus(self, other: Self) -> (sum: Self)
        requires
            self.value() + other.value() <= Self::limit(),
        ensures
            sum.value() == self.value() + other.value(),
    ;

    /// The sum of two costs, or `None` where the type cannot hold it.
    fn checked_plus(self, other: Self) -> (sum: Option<Self>)
        ensures
            match sum {
                Some(sum) => sum.value() == self.value() + other.value() && sum.value()
                    <= Self::limit(),
                None => self.value() + other.value() > Self::limit(),
            },
    ;

    /// Whether `self` is strictly cheaper than `other`.
    fn less(self, other: Self) -> (b: bool)
        ensures
            b == (self.value() < other.value()),
    ;
}

impl HasZero for u16 {
    open spec fn value(self) -> nat {
        self as nat
    }

    open spec fn limit() -> nat {
        u16::MAX as nat
    }

    fn zero() -> (z: Self) {
        0
    }

    fn plus(self, other: Self) -> (sum: Self) {
        self + other
    }

    fn checked_plus(self, other: Self) -> (sum: Option<Self>) {
        self.checked_add(other)
    }

    fn less(self, other: Self) -> (b: bool) {
        self < other
    }
}

impl HasZero for u32 {
    open spec fn value(self) -> nat {
        self as nat
    }

    open spec fn limit() -> nat {
        u32::MAX as nat
    }

    fn zero() -> (z: Self) {
        0
    }

    fn plus(self, other: Self) -> (sum: Self) {
        self + other
    }

    fn checked_plus(self, other: Self) -> (sum: Option<Self>) {
        self.checked_add(other)
    }

    fn less(self, other: Self) -> (b: bool) {
        self < other
    }
}

impl HasZero for u64 {
    open spec fn value(self) -> nat {
        self as nat
    }

    open spec fn limit() -> nat {
        u64::MAX as nat
    }

    fn zero() -> (z: Self) {
        0
    }

    fn plus(self, other: Self) -> (sum: Self) {
        self + other
    }

    fn checked_plus(self, other: Self) -> (sum: Option<Self>) {
        self.checked_add(other)
    }

    fn less(self, other: Self) -> (b: bool) {
        self < other
    }
}

} // verus!
