//! Whitespace reflow: which spacing stands between two pieces of code, which
//! should, and how to mend it.
//!
//! The raw segments of a tree are split into blocks (code) and points (the
//! whitespace, newlines and indents between them). The configuration gives each
//! block the spacing that it wants before and after it; each point is held to
//! what its two neighbours want.

pub mod ancestry;
pub mod config;
pub mod depthmap;
pub mod division;
pub mod elements;
pub mod laws;
pub mod lookup;
pub mod nesting;
pub mod respace;
pub mod sequence;
