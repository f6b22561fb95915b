use vstd::prelude::*;

pub mod bit_matrix;
pub mod bench_hooks;
pub mod bit_types;
pub mod bits;
pub mod builder;
pub mod codec;
pub mod deqr;
pub mod ec;
pub mod error;
pub mod iter;
pub mod mask;
pub mod mask_laws;
pub mod metadata;
pub mod reader;

verus! {
} // verus!
