//! Bit-cost estimation for a Brotli-family encoder.
//!
//! The crate prices choices that the format leaves to the encoder, without
//! writing a single bit of output:
//!
//! - [`bit_cost`] estimates what a histogram of symbol counts costs to code,
//!   the description of the code included;
//! - [`cdf`] keeps adaptive nibble models that learn at sixteen speeds at once;
//! - [`context_map_entropy`] walks the literals of a command stream twice and
//!   finds the speeds under which a context map, a stride model and a blend of
//!   the two are cheapest; [`entropy_model`] says what that walk computes.
//!
//! All costs are integers in units of `1 / 65536` bit ([`log2::BitCost`]), and
//! the logarithm behind them is the fixed-point [`log2::log2_fixed`].
#![allow(non_snake_case)]
#![allow(non_camel_case_types)]
#![allow(non_upper_case_globals)]

pub mod log2;
pub mod bit_cost;
pub mod histogram;
pub mod memory;
pub mod cdf;
pub mod interface;
pub mod context;
pub mod entropy_model;
pub mod context_map_entropy;
