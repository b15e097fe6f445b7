//! Prover half of a sum-check protocol over the binary field GF(2^128),
//! specialized for claims of the form `sum_x f(P_1(x), ..., P_N(x)) * eq(x, pt)`
//! where each `P_k` is a multilinear polynomial given by its evaluation table.
//!
//! The canonical instantiation is the AND-check (`N = 2`, `f(p, q) = p & q`).

pub mod andcheck;
pub mod backend;
pub mod field;
pub mod protocols;
pub mod traits;
