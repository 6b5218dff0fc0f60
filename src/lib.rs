//! A compiler front end for a small language of library imports and buffered
//! writes: `lexer` turns source text into tokens, `parse1::parse` turns tokens into
//! statements or diagnostics, and `gen::genc` turns statements into C source text.
use vstd::prelude::*;

pub mod gen;
pub mod laws;
pub mod lexer;
pub mod parse1;
pub mod text;

verus! {

} // verus!
