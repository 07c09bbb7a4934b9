use vstd::prelude::*;
use crate::comparator::{Comparator, Reversed};
use crate::fixed_size_min_heap::is_min_heap;
use crate::selection::{SelectError, is_top_selection, max_n_by_from_iter};

verus! {

/// Convenience layer over the selection core: select the K largest or the K
/// smallest elements of a collection. The minimum-selecting variant only
/// reverses the comparator; it duplicates none of the heap logic.
pub trait MaxN<T>: Sized + View<V = Seq<T>> {
    /// The `k` largest elements under `f`, heap-ordered, or
    /// `InsufficientElements` when fewer than `k` are available.
    fn max_n_by<C: Comparator<T>>(self, k: usize, f: C) -> (r: Result<Vec<T>, SelectError>)
        requires
            k > 0 || self@.len() == 0,
        ensures
            match r {
                Ok(out) => {
                    &&& self@.len() >= k
                    &&& out@.len() == k
                    &&& is_min_heap(f, out@)
                    &&& is_top_selection(f, self@, out@)
                },
                Err(e) => self@.len() < k && e == SelectError::InsufficientElements,
            },
    ;

    /// The `k` smallest elements under `f`: the largest under the reversed
    /// comparator.
    fn min_n_by<C: Comparator<T>>(self, k: usize, f: C) -> (r: Result<Vec<T>, SelectError>)
        requires
            k > 0 || self@.len() == 0,
        ensures
            match r {
                Ok(out) => {
                    &&& self@.len() >= k
                    &&& out@.len() == k
                    &&& is_min_heap((Reversed(f)), out@)
                    &&& is_top_selection((Reversed(f)), self@, out@)
                },
                Err(e) => self@.len() < k && e == SelectError::InsufficientElements,
            },
    ;
}

impl<T> MaxN<T> for Vec<T> {
    fn max_n_by<C: Comparator<T>>(self, k: usize, f: C) -> (r: Result<Vec<T>, SelectError>) {
        max_n_by_from_iter(self, k, f)
    }

    fn min_n_by<C: Comparator<T>>(self, k: usize, f: C) -> (r: Result<Vec<T>, SelectError>) {
        max_n_by_from_iter(self, k, Reversed(f))
    }
}

} // verus!
