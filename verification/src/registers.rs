//! The control registers that guard the active page tables, as values: the
//! loader computes what to write, and whoever owns the processor writes it.

use vstd::prelude::*;
use x86_64::registers::control::Cr0Flags;
use crate::table::ADDRESS_MASK;

verus! {

/// Bit of CR0 that keeps the supervisor from writing to read-only pages.
pub const WRITE_PROTECT: u64 = 0x1_0000;

/// `Cr0Flags::WRITE_PROTECT`, as bits.
#[verifier::external_body]
fn write_protect_flag() -> (bits: u64)
    ensures
        bits == WRITE_PROTECT,
{
    Cr0Flags::WRITE_PROTECT.bits()
}

/// The raw values of CR0 and CR3.
#[derive(Clone, Copy, Debug, PartialEq, Eq, Structural)]
pub struct ControlRegisters {
    pub cr0: u64,
    pub cr3: u64,
}

impl ControlRegisters {
    /// Whether writes to read-only pages are refused.
    pub open spec fn write_protected(self) -> bool {
        self.cr0 & WRITE_PROTECT == WRITE_PROTECT
    }

    /// Physical address of the active root table.
    pub open spec fn root_table(self) -> u64 {
        self.cr3 & ADDRESS_MASK
    }

    /// Physical address of the active root table.
    pub fn root_table_address(&self) -> (address: u64)
        ensures
            address == self.root_table(),
    {
        self.cr3 & ADDRESS_MASK
    }
}

/// The span of time in which the active page tables may be written. While it
/// is open the registers it holds are in force; closing it is the only way
/// to get registers back, and they have write protection on.
#[derive(Debug)]
pub struct WriteWindow {
    lifted: ControlRegisters,
}

impl WriteWindow {
    /// The registers in force while the window is open.
    pub closed spec fn registers(&self) -> ControlRegisters {
        self.lifted
    }

    /// Lifts write protection and changes nothing else.
    pub fn open(registers: ControlRegisters) -> (window: WriteWindow)
        ensures
            window.registers().cr0 == registers.cr0 & !WRITE_PROTECT,
            window.registers().cr3 == registers.cr3,
            !window.registers().write_protected(),
    {
        let bit = write_protect_flag();
        let cr0 = registers.cr0;
        assert((cr0 & !0x1_0000u64) & 0x1_0000u64 != 0x1_0000u64) by (bit_vector);
        WriteWindow { lifted: ControlRegisters { cr0: cr0 & !bit, cr3: registers.cr3 } }
    }

    /// The registers in force while the window is open.
    pub fn in_force(&self) -> (registers: ControlRegisters)
        ensures
            registers == self.registers(),
    {
        self.lifted
    }

    /// Restores write protection and changes nothing else.
    pub fn close(self) -> (registers: ControlRegisters)
        ensures
            registers.cr0 == self.registers().cr0 | WRITE_PROTECT,
            registers.cr3 == self.registers().cr3,
            registers.write_protected(),
    {
        let bit = write_protect_flag();
        let cr0 = self.lifted.cr0;
        assert((cr0 | 0x1_0000u64) & 0x1_0000u64 == 0x1_0000u64) by (bit_vector);
        ControlRegisters { cr0: cr0 | bit, cr3: self.lifted.cr3 }
    }
}

/// Opening and closing the window leaves the root table where it was, and
/// gives back the very registers it was opened on if they had write
/// protection on.
pub proof fn lemma_window_keeps_root(registers: ControlRegisters)
    ensures
        ({
            let closed = ControlRegisters {
                cr0: (registers.cr0 & !WRITE_PROTECT) | WRITE_PROTECT,
                cr3: registers.cr3,
            };
            &&& closed.root_table() == registers.root_table()
            &&& closed.write_protected()
            &&& registers.write_protected() ==> closed == registers
        }),
{
    let cr0 = registers.cr0;
    assert(((cr0 & !0x1_0000u64) | 0x1_0000u64) & 0x1_0000u64 == 0x1_0000u64) by (bit_vector);
    assert(cr0 & 0x1_0000u64 == 0x1_0000u64 ==> (cr0 & !0x1_0000u64) | 0x1_0000u64 == cr0)
        by (bit_vector);
}

} // verus!
