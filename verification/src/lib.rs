//! Core of a small stack-based virtual machine.
//!
//! The machine executes ROM images for a fixed 8/16-bit instruction set on a
//! flat 64 KiB byte-addressable memory, two bounded byte stacks (working and
//! return) and a 16-bit program counter.  The instruction set is a 32-opcode
//! base ISA whose behaviour is parameterized by three mode bits (keep, return,
//! short) in the high nibble of each opcode byte.
//!
//! The executable engine in [`cpu`] is verified against the mathematical
//! small-step semantics in [`isa`]; the general laws of the machine are stated
//! and proved in [`laws`].

use vstd::prelude::*;

pub mod cpu;
pub mod devices;
pub mod isa;
pub mod laws;
pub mod stack;

pub use cpu::StepOutcome;
pub use cpu::Uxn;
pub use devices::Console;
pub use devices::Device;
pub use stack::Stack;

verus! {

/// A fault raised while a vector executes.  Faults halt the current vector;
/// the machine state stays observable afterwards.
#[derive(Clone, Copy, Debug, PartialEq, Eq, Structural)]
pub enum Fault {
    /// A pop was attempted with too few bytes available on the stack.
    StackUnderflow,
    /// A push would have grown a stack beyond its maximum depth of 255 bytes.
    StackOverflow,
    /// Reserved: a 5-bit opcode field cannot produce this fault today.
    InvalidOpcode,
}

/// An error reported synchronously while setting a machine up; the machine is
/// left unchanged when one is returned.
#[derive(Clone, Copy, Debug, PartialEq, Eq, Structural)]
pub enum SetupError {
    /// A device was mounted on a slot that already holds one.
    SlotOccupied,
    /// A ROM image does not fit in memory between 0x0100 and 0xffff.
    RomTooLarge,
}

} // verus!
