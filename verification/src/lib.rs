//! Execution core of a bytecode virtual machine for a small dynamically
//! typed scripting language with first-class functions and lexical closures.
//!
//! A compiled program (a chunk of instructions, a constant pool and a line
//! map) is executed over an evaluation stack and a call stack.  Closures
//! capture variables through upvalue cells that start out pointing into the
//! stack and are moved to the heap when the owning frame returns.  A
//! mark-sweep collector reclaims unreachable heap objects.
//!
//! Numbers are IEEE-754 double-precision values carried as their 64-bit
//! patterns.  Everything the interpreter decides about a number (sign,
//! zeroness, NaN-ness, equality, ordering) is computed here, bit by bit.
//! The four arithmetic operations, and the conversions between numbers and
//! text, are delegated to a [`vm::Host`] supplied by the embedder.

pub mod chunk;
pub mod error;
pub mod gc;
pub mod heap;
pub mod instruction;
pub mod num;
pub mod text;
pub mod value;
pub mod vm;
