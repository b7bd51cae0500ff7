//! Term rewriting over symbolic expressions: expressions and languages,
//! pattern matching and unification, direct rewriting, e-graphs with
//! equality saturation, and induced string rewriting.

pub mod assoc;
pub mod did;
pub mod equation;
pub mod graph;
pub mod language;
pub mod rewriting;
pub mod seen;
pub mod string_rewriting;
pub mod union_find;
