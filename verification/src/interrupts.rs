//! Interrupt vector numbers: the two chained interrupt controllers are
//! remapped above the CPU exceptions, and system calls use vector 0x80.
use vstd::prelude::*;

verus! {

/// Vector offset of the primary interrupt controller.
pub const PIC_1_OFFSET: u8 = 32;
/// Vector offset of the secondary interrupt controller.
pub const PIC_2_OFFSET: u8 = 40;

/// The interrupt vectors that the kernel installs handlers for.
#[derive(Debug, Clone, Copy, PartialEq, Eq, Structural)]
pub enum InterruptIndex {
    Timer,
    Keyboard,
    Syscall,
}

impl InterruptIndex {
    /// The vector number of each interrupt.
    pub open spec fn vector(self) -> u8 {
        match self {
            InterruptIndex::Timer => PIC_1_OFFSET,
            InterruptIndex::Keyboard => (PIC_1_OFFSET + 1) as u8,
            InterruptIndex::Syscall => 0x80u8,
        }
    }

    /// The vector number.
    pub fn as_u8(self) -> (r: u8)
        ensures
            r == self.vector(),
    {
        match self {
            InterruptIndex::Timer => PIC_1_OFFSET,
            InterruptIndex::Keyboard => PIC_1_OFFSET + 1,
            InterruptIndex::Syscall => 0x80,
        }
    }

    /// The vector number, as an index into the interrupt table.
    pub fn as_usize(self) -> (r: usize)
        ensures
            r == self.vector() as usize,
    {
        let v: u8 = self.as_u8();
        v as usize
    }
}

} // verus!
