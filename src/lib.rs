//! A hash map with separate chaining: each bucket is a vector of pairs, and
//! the bucket array doubles whenever the load factor passes three quarters.
pub mod entry;
pub mod flat;
pub mod key;
pub mod laws;
pub mod map;

pub use entry::{Entry, OccupiedEntry, VacantEntry};
pub use key::MapKey;
pub use map::{HashMap, Iter};
