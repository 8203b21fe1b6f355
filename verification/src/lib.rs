//! Finds every combination of five five-letter words whose letters are all
//! distinct: 25 of the 26 alphabet letters, no letter shared between words.
//!
//! Words are encoded as letter-presence bitmasks; the search enumerates
//! letter-disjoint mask pairs, composes pairs into disjoint quads, extends
//! quads with a disjoint fifth mask, and deduplicates combinations that are
//! reachable through more than one decomposition path.

pub mod dedup;
pub mod driver;
pub mod index;
pub mod mask;
pub mod search;
