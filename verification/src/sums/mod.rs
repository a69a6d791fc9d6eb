//! Counting the ways to write a number as a sum of positive numbers, the
//! order of the summands aside: once with a memo, once with a table.

use vstd::prelude::*;

pub mod agree;
pub mod by_hashmap;
pub mod by_table;

verus! {

/// The counts are kept small by reducing them modulo this number.
pub const MODULUS: u64 = 100000007;

} // verus!
