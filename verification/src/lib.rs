//! A verified core for the Universal Machine: a register-based virtual
//! machine with a segmented 32-bit address space and fourteen opcodes.
//!
//! The crate has three layers:
//! - [`bitpack`]: pure functions over 64-bit words that test, extract and
//!   replace signed and unsigned bit fields;
//! - [`instructs`]: the instruction decoder and one verified handler per
//!   opcode, each with an exact contract over the machine state;
//! - [`rum`]: the machine state itself, its invariant, the program loader,
//!   and the fetch/decode/dispatch loop.

pub mod bitpack;
pub mod instructs;
pub mod rum;
