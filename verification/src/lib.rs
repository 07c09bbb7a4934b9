//! Bounded top-K selection: a fixed-capacity binary min-heap and a
//! single-pass selection pass built on it. Given a sequence and a comparison
//! rule, selection returns exactly the K largest elements, heap-ordered, and
//! discards the rest. The contracts pin the result down as a multiset: the
//! output is drawn from the input and dominates everything left behind.

pub mod comparator;
pub mod fixed_size_min_heap;
pub mod max_n_trait;
pub mod selection;
