//! The failures the engine reports.

use vstd::prelude::*;

verus! {

/// Everything that can go wrong while building, mutating or evaluating a sheet.
#[derive(Debug)]
pub enum SheetError {
    /// The definition document handed to a host could not be parsed.
    /// The engine itself never produces this; hosts that read serialized
    /// documents map their parse failures into it.
    BadYaml(String),
    /// A prelude or entry script failed to compile; the prior state is kept.
    BadScript(rhai::ParseError),
    /// Evaluation or invalidation ran into a dependency cycle at the named entry.
    CyclicDependency(String),
    /// A referenced or directly requested entry is not defined.
    BadDependency(String),
    /// Reserved for type-mismatch policy; not produced by the engine core.
    UnexpectedResult(rhai::Dynamic),
    /// The evaluator raised a runtime failure executing a compiled script.
    EvalFailure(Box<rhai::EvalAltResult>),
}

} // verus!
