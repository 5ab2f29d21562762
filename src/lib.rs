//! A flat table that resolves identifiers to function values, with a
//! fallback function for names that are not bound.

pub mod laws;
pub mod scope;

pub use scope::Scope;
