//! A parser for a small expression language.
//!
//! A source file is a sequence of declarations `name expression`; parsing it
//! yields a `HugoIR`, a mapping from each declared name to its expression
//! tree, or a list of `Diagnostic`s anchored to byte positions.
//!
//! The grammar is stated once, as spec functions over the source bytes
//! (module `syntax`), and the executable parsers are proved to compute exactly
//! what those functions describe.
pub mod syntax;
pub mod expr;
pub mod program;

pub use syntax::{Diagnostic, Reasons};
pub use expr::Expr;
pub use program::HugoIR;
