//! Hierarchical hexagonal cell identifiers.
//!
//! A cell identifier is a 64-bit word packing a resolution (4 bits), a base
//! cell (7 bits) and fifteen 3-bit direction digits. `bits` is the unchecked
//! bit-field codec over the raw word, `index` validates words into
//! [`index::CellIndex`] values, `coord` holds the local hexagonal coordinate
//! arithmetic, and `ring` enumerates the cells at an exact hop distance from
//! an origin cell.

pub mod bits;
pub mod coord;
pub mod index;
pub mod ring;
