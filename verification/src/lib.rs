//! The Hack computer: a two-pass symbolic assembler from Hack assembly to
//! 16-bit machine words, an instruction codec, and a cycle-accurate CPU
//! emulator with a memory-mapped screen and keyboard cell.

pub mod errors;
pub mod hackword;
pub mod instruction;
pub mod assembler;
pub mod machine;
pub mod io;
pub mod symbols;
