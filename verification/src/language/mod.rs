//! Languages (symbol tables) and the expressions built over them.

pub mod arities;
pub mod expression;
pub mod parse;
pub mod paths;
pub mod symbol;
pub mod table;
pub mod text;

pub use table::Language;
