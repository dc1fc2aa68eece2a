//! An interpreter for a register-based esoteric language whose programs are
//! streams of uppercase letters, read three at a time as opcodes. The
//! grammar, the exact-rational value model and the execution engine are all
//! specified as ghost functions and proved against the executable code.
use vstd::prelude::*;

pub mod bignum;
pub mod rational;
pub mod ast;
pub mod codec;
pub mod stream;
pub mod parser;
pub mod engine;

verus! {

} // verus!
