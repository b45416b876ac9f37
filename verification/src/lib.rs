//! Logic values, logic vectors and fixed-width bit vectors, and the
//! generation of adder test vectors for VHDL testbenches.

/// Single logic values and their characters.
pub mod logic_val;
/// Bits of 64-bit words.
pub mod word;
/// Fixed-width bit vectors and their arithmetic.
pub mod bit_vec;
/// Turning characters into strings.
pub mod text;
/// Vectors of logic values and their text.
pub mod logic_vec;
/// Sorting by integer keys with duplicates removed.
pub mod order;
/// The deterministic random generator and its shuffle.
pub mod rng;
/// The VHDL text of test cases and packages.
pub mod vhdl;
/// Test cases for an adder of any width.
pub mod adder_wide;
/// Test cases for a 128-bit adder.
pub mod adder128;
