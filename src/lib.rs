//! Base-3 arithmetic: a digit codec, an expression evaluator, a checksummed
//! opcode format, integer matrices with a base-3 text form, and the Tower of
//! Hanoi moves.
pub mod codec;
pub mod expr;
pub mod hanoi;
pub mod matrix;
pub mod opcode;
pub mod serial;
pub mod text;
