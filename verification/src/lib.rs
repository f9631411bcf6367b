//! A best-effort directory scanner core.
//!
//! The library holds the verified logic of a recursive directory scan:
//! a work-list traversal state machine (`scanner::Scanner`) and the
//! metadata computation for each file (`meta`). The caller performs the
//! actual filesystem reads one directory at a time and hands the entries
//! back as plain values.

pub mod laws;
pub mod meta;
pub mod scanner;
