//! Verified matrix-vector kernels, the way they are split across threads, and the cache of
//! packed left-hand-side panels that sits beside them.
//!
//! * [`element`] and [`simd`] say what arithmetic a kernel needs from its scalars and vectors;
//! * [`strides`] addresses a matrix inside a slice;
//! * [`gemv`] holds the serial kernels;
//! * [`tasks`] and [`parallel`] cut a product into a grid of tasks and run it;
//! * [`sums`] and [`exact`] show what the kernels compute where the arithmetic is exact;
//! * [`packed_cache`] remembers packed operands.
#![allow(unused_imports)]

pub mod element;
pub mod simd;
pub mod strides;
pub mod gemv;
pub mod tasks;
pub mod parallel;
pub mod sums;
pub mod exact;
pub mod packed_cache;
