//! The protocol layer: shared table-building utilities and the generic
//! quadratic boolean check.

pub mod boolcheck;
pub mod utils;
