//! Lazy generators of fixed-width combinations and permutations.
//!
//! The crate is built around two small index-selection state machines:
//! [`LazyCombinationGenerator`], which walks the ascending index tuples of a
//! fixed width in combinatorial-number-system order, and
//! [`LazyPermutationGenerator`], which walks the orderings of a fixed set of
//! positions with Heap's algorithm.  Around them stand thin adapters that
//! buffer a growing element sequence ([`Combinations`], [`Permutations`]) or
//! borrow a fixed slice ([`SliceCombinations`], [`SlicePermutations`]) and
//! materialize the index tuples into value tuples.

pub mod combinations;
pub mod permutations;

pub use combinations::{Combinations, LazyCombinationGenerator, SliceCombinations};
pub use permutations::{LazyPermutationGenerator, Permutations, SlicePermutations};
