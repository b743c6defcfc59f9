//! The verified core of the Rune interpreter's runtime library: error
//! kinds, inline caches, string and array algorithms of the built-ins, the
//! JSON reader and writer (also over values that contain each other),
//! property-descriptor rules, regular-expression
//! flags, the number readers of `parseInt`/`parseFloat`, typed-array views,
//! and the step-wise stable merge sort behind `Array.prototype.sort`.
//!
//! Heap values stay with the caller: the functions here work on the plain
//! data a built-in reads (characters, UTF-16 units, positions, flags) and
//! say in their contracts exactly what they compute.
use vstd::prelude::*;

pub mod errors;
pub mod ic;
pub mod text;
pub mod units;
pub mod replacement;
pub mod array_index;
pub mod json;
pub mod json_laws;
pub mod json_graph;
pub mod sort;
pub mod descriptor;
pub mod regexp_flags;
pub mod array_ops;
pub mod number_text;
pub mod typed_layout;
pub mod flatten;
pub mod regex_loops;

verus! {
} // verus!
