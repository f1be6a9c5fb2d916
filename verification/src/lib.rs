//! Exhaustive solver core for a three-generator corner twisty puzzle.
//!
//! Only the `U`, `F` and `R` faces may be turned, so one corner never moves
//! and seven movable pieces remain.  The crate models configurations, the
//! nine generator moves, a bijective encoding of configurations onto the
//! dense index range `[0, 7! * 3^6)`, a breadth-first search that finds a
//! shortest move sequence for every index, and the fixed-width binary
//! packing of those solutions.

pub mod codec;
pub mod moves;
pub mod names;
pub mod pack;
pub mod perm;
pub mod search;
pub mod state;
