//! A zero-knowledge circuit that proves an address lies outside a public list
//! of addresses, written over a plain rank-1 constraint system model.
pub mod address;
pub mod circuit;
pub mod field;
pub mod r1cs;
