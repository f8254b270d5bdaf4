use vstd::prelude::*;

pub mod assembler;
pub mod laws;
pub mod output;
pub mod parser;
pub mod symbols;
pub mod text;
pub mod types;

verus! {

} // verus!
