//! Constant folding, Kernel conversion evaluators and flow passes of a Ruby
//! type inferencer.
#![allow(unused_imports)]

pub mod ast;
pub mod decimal;
pub mod env;
pub mod float_bits;
pub mod flow;
pub mod lexer;
pub mod parser;
pub mod folding;
pub mod kernel;
pub mod lookup;
pub mod names;
pub mod nilflow;
pub mod offsets;
pub mod scalar;
pub mod shape;
pub mod text;
pub mod truthy;
pub mod types;

use vstd::prelude::*;

verus! {

} // verus!
