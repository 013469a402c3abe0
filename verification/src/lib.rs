//! Bit-sliced ternary nonce search: many candidate trit streams share the bits
//! of one pair of machine words, so a single pass over the columns advances
//! every candidate at once.
//!
//! - [`trits`]: trits, columns and what a lane reads in them.
//! - [`bits`]: single bits of a word.
//! - [`num`]: integers to balanced-ternary trits and back.
//! - [`mux`]: packing trit sequences into columns and reading lanes out.
//! - [`offset`]: a distinct counter for every lane in the leading columns.
//! - [`ham`]: the acceptance rule and the search round built on it.

pub mod bits;
pub mod ham;
pub mod mux;
pub mod num;
pub mod offset;
pub mod trits;

pub use crate::ham::{CpuHam, SearchError, Security};
pub use crate::mux::TrinaryDemultiplexer;
pub use crate::offset::Offset;
pub use crate::trits::{BCTrit, Trit};
