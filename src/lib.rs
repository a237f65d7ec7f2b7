//! A small computer-algebra engine: infix expressions are parsed into trees,
//! evaluated with exact rational arithmetic, simplified by a rewrite-rule
//! table, and printed back as infix, LaTeX or a structural trace.
use vstd::prelude::*;

pub mod engine;
pub mod eval;
pub mod expr;
pub mod functions;
pub mod number;
pub mod parse;
pub mod print;
pub mod signs;
pub mod simplifier;
pub mod text;
pub mod types;

pub use engine::{Engine, FunctionEntry};
pub use expr::{Expr, Symbol, Term, Token, Tree};
pub use number::Number;
pub use types::{Associativity, Operator, SymErr};
