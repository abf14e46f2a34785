//! The computing core of the customasm assembler, verified: bit sequences
//! and output blocks with their output formats, the command line and its
//! output-format strings, diagnostics and their rendering, and pieces of
//! the assembler's resolution.
use vstd::prelude::*;

pub mod annotated;
pub mod asm2;
pub mod binary_block;
pub mod bitvec;
pub mod configuration;
pub mod diagn;
pub mod driver;
pub mod expr;
pub mod instrset;
pub mod output_format;
pub mod render;
pub mod reporter;
pub mod string_literal;
pub mod text;

verus! {

} // verus!
