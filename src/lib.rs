//! Cheapest routes over a weighted grid: a map of optional cells, each with
//! the cost of entering it, searched from a start cell to a finish cell in the
//! eight directions by uniform-cost search.

use vstd::prelude::*;

pub mod search;
pub mod trans_map;

verus! {

} // verus!
