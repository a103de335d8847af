//! A compiler and virtual machine for a minimal tape-and-cell language.
//!
//! Source text is translated into a compact variable-width bytecode
//! (`Program`), which a register-and-stack virtual machine (`STVM`)
//! decodes and executes against a growable data tape, an auxiliary
//! stack and a set of status registers.

pub mod bf;
pub mod command;
pub mod laws;
pub mod prng;
pub mod program;
pub mod tape;
pub mod vm;

pub use bf::CompileError;
pub use program::Lang;
pub use program::Program;
pub use vm::STVM;
pub use vm::VmError;
pub use vm::VmState;
