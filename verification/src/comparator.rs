use vstd::prelude::*;
use core::cmp::Ordering;

verus! {

/// A three-way comparison rule over values of type `T`.
///
/// The spec function `leq` is the mathematical meaning of the comparator: a
/// total preorder, read as "not greater than". The executable `compare` is
/// pinned to `leq`, so every verified caller reasons about one and the same
/// order, and the heap and selection contracts can be stated over `leq`.
pub trait Comparator<T>: Sized {
    /// The order that `compare` decides, as a spec-level relation.
    spec fn leq(&self, x: T, y: T) -> bool;

    /// The order is total: any two values compare one way or the other.
    proof fn lemma_total(&self, x: T, y: T)
        ensures
            self.leq(x, y) || self.leq(y, x),
    ;

    /// The order is transitive.
    proof fn lemma_transitive(&self, x: T, y: T, z: T)
        requires
            self.leq(x, y),
            self.leq(y, z),
        ensures
            self.leq(x, z),
    ;

    /// Three-way comparison, consistent with `leq`.
    fn compare(&self, x: &T, y: &T) -> (o: Ordering)
        ensures
            (o == Ordering::Greater) <==> !self.leq(*x, *y),
            (o == Ordering::Less) <==> !self.leq(*y, *x),
            (o == Ordering::Equal) <==> (self.leq(*x, *y) && self.leq(*y, *x)),
    ;
}

/// The natural ascending order on `u64`.
pub struct U64Natural;

impl Comparator<u64> for U64Natural {
    open spec fn leq(&self, x: u64, y: u64) -> bool {
        x <= y
    }

    proof fn lemma_total(&self, x: u64, y: u64) {
    }

    proof fn lemma_transitive(&self, x: u64, y: u64, z: u64) {
    }

    fn compare(&self, x: &u64, y: &u64) -> (o: Ordering) {
        if *x < *y {
            Ordering::Less
        } else if *x == *y {
            Ordering::Equal
        } else {
            Ordering::Greater
        }
    }
}

/// Reverses an existing comparator: selecting the largest elements under
/// `Reversed(f)` selects the smallest under `f`.
pub struct Reversed<C>(pub C);

impl<T, C: Comparator<T>> Comparator<T> for Reversed<C> {
    open spec fn leq(&self, x: T, y: T) -> bool {
        self.0.leq(y, x)
    }

    proof fn lemma_total(&self, x: T, y: T) {
        self.0.lemma_total(y, x);
    }

    proof fn lemma_transitive(&self, x: T, y: T, z: T) {
        self.0.lemma_transitive(z, y, x);
    }

    fn compare(&self, x: &T, y: &T) -> (o: Ordering) {
        self.0.compare(y, x)
    }
}

} // verus!
