//! Conflict-free replicated data types: vector clocks, causal reads, a
//! multi-value register, an ordered list over a dense identifier space and an
//! add-wins map with reset-remove semantics.
pub mod version;
pub mod vector_clock;
pub mod traits;
pub mod base;
pub mod multi_value;
pub mod rational;
pub mod identifier;
pub mod list;
pub mod map;
pub mod models;

use vstd::prelude::*;

verus! {

/// The sum of two integers.
pub fn add_two(a: i32, b: i32) -> (r: i32)
    requires
        i32::MIN <= a + b <= i32::MAX,
    ensures
        r == a + b,
{
    a + b
}

} // verus!
