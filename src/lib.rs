//! Arithmetic on measurements with uncertainty: expressions such as
//! `(1.0 ± 0.1) * (3.0 ± 0.1)` are scanned into tokens, parsed by binding power into
//! expression trees, and checked for the variant of their value and for the lexical,
//! syntax and domain errors that evaluation raises.

use vstd::prelude::*;

pub mod decimal;
pub mod error;
pub mod lexer;
pub mod parser;
pub mod token;
pub mod value;

verus! {

} // verus!
