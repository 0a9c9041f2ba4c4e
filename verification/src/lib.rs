//! A small register machine and its assembler.
//!
//! - [`instruction`] is the instruction set: the opcodes, their bytes and the
//!   operands they take.
//! - [`assembly`] turns source text into instructions and instructions into
//!   bytecode.
//! - [`vm`] is the machine that runs bytecode: thirty-two registers, a heap
//!   that only grows, a remainder register and a comparison flag.
//! - [`repl`] decides what each line typed into the interactive shell does.
//! - [`word`] is the fixed-width arithmetic that the others share.
//!
//! Every function states what it returns, and the statements are proved.
pub mod assembly;
pub mod instruction;
pub mod repl;
pub mod vm;
pub mod word;
