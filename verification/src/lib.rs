//! Verified core of a tool that inspects and repairs persisted
//! environment-variable stores, with special handling for PATH-like
//! delimited list variables.
//!
//! The crate splits a delimiter-separated string into ordered entries
//! ([`parser`]), classifies each entry against an externally supplied
//! existence check, and produces a validation/repair report that preserves
//! input order and counts the broken entries ([`validator`]). Reading the
//! raw string from the store, running the actual filesystem checks, and
//! writing a repaired value back are the collaborators' business; their
//! failure kinds are typed in [`store`].

pub mod parser;
pub mod store;
pub mod validator;
