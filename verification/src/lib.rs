//! A two-pass assembler for a 16-bit instruction-set computer.
//!
//! A source text is split into positioned symbols, its label declarations
//! are bound to instruction addresses, and every remaining symbol is encoded
//! as one 16-bit word of the program.

use vstd::prelude::*;

pub mod assembler;
pub mod decimal;
pub mod encoder;
pub mod error;
pub mod grammar;
pub mod instruction;
pub mod labels;
pub mod lexer;
pub mod symbol;
pub mod text;

verus! {

/// The number of instructions that the program memory holds. It is also the
/// greatest address that a symbol can stand for.
pub const ROM_SIZE: usize = 32767;

} // verus!
