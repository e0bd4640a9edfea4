//! A reactive expression-evaluation engine for named game-parameter entries.
//!
//! Each entry holds a small script; scripts may reference other entries by
//! name through the lookup function `g`. Values are computed lazily, memoized
//! in a per-entry cache, and invalidated together with every transitive
//! consumer whenever a referenced entry changes. Several sheets can be
//! stacked into layers so that a higher-priority layer overrides entries of
//! a lower one while inheriting the rest.

use vstd::prelude::*;

pub mod errors;
pub mod graph;
pub mod laws;
pub mod script;
pub mod sheet;
pub mod stack;

verus! {

/// The sheet files a host loads, in ascending order of layer priority.
pub struct Args {
    /// Paths of the layer files, lowest priority first.
    pub files: Vec<String>,
}

} // verus!
