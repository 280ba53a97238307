//! Arithmetic on virtual and physical addresses: pages, table slots and the
//! canonical form of an address.

use vstd::prelude::*;
use x86_64::structures::paging::page_table::PageTableLevel;
use x86_64::VirtAddr;

verus! {

/// Bytes in a page and in a physical frame.
pub const PAGE_SIZE: u64 = 4096;

/// One more than the largest physical address the processor can name.
pub const PHYSICAL_LIMIT: u64 = 0x10_0000_0000_0000;

/// Number of pages in the 48-bit virtual address space.
pub const PAGE_COUNT: u64 = 0x10_0000_0000;

/// Size of the 48-bit virtual address space in bytes.
pub const LINEAR_LIMIT: u64 = 0x1_0000_0000_0000;

/// First address of the upper half of the canonical address space.
pub const UPPER_HALF: u64 = 0xffff_8000_0000_0000;

/// One more than the last address of the lower half of the canonical address space.
pub const LOWER_HALF_END: u64 = 0x8000_0000_0000;

/// A level of the page-table hierarchy. Level four is the root; the entries
/// of a level-one table point to pages.
#[derive(Clone, Copy, Debug, PartialEq, Eq, Structural)]
pub enum Level {
    One,
    Two,
    Three,
    Four,
}

impl Level {
    /// The level as a number from 1 to 4.
    pub open spec fn number(self) -> int {
        match self {
            Level::One => 1,
            Level::Two => 2,
            Level::Three => 3,
            Level::Four => 4,
        }
    }
}

/// Number of pages that one table of the given level covers: 512 to the
/// power of the level. Level 0 stands for a single page.
pub open spec fn span(level: int) -> int {
    if level <= 0 {
        1
    } else if level == 1 {
        512
    } else if level == 2 {
        262144
    } else if level == 3 {
        134217728
    } else {
        68719476736
    }
}

/// Whether bits 48 to 63 of the address repeat bit 47.
pub open spec fn canonical(address: u64) -> bool {
    address < LOWER_HALF_END || address >= UPPER_HALF
}

/// The address within the 48-bit space: the low 48 bits.
pub open spec fn linear(address: u64) -> int {
    address as int % (LINEAR_LIMIT as int)
}

/// The page that holds the address, numbered within the 48-bit space.
pub open spec fn page_of(address: u64) -> int {
    linear(address) / (PAGE_SIZE as int)
}

/// The slot that a table of the given level uses for the page.
pub open spec fn slot_of(page: int, level: int) -> int {
    (page / span(level - 1)) % 512
}

/// How the regions and slots on the path of a page follow from one another.
pub proof fn lemma_path(page: int)
    requires
        0 <= page < PAGE_COUNT,
    ensures
        page / span(0) == page,
        page / span(1) == page / 512,
        (page / span(1)) / 512 == page / span(2),
        (page / span(2)) / 512 == page / span(3),
        (page / span(3)) / 512 == 0,
        0 <= page / span(1) < span(3),
        0 <= page / span(2) < span(2),
        0 <= page / span(3) < span(1),
        slot_of(page, 1) == page % 512,
        slot_of(page, 2) == (page / span(1)) % 512,
        slot_of(page, 3) == (page / span(2)) % 512,
        slot_of(page, 4) == (page / span(3)) % 512,
{
    vstd::arithmetic::div_mod::lemma_div_denominator(page, 512, 512);
    vstd::arithmetic::div_mod::lemma_div_denominator(page, 262144, 512);
    vstd::arithmetic::div_mod::lemma_div_denominator(page, 134217728, 512);
}

/// `VirtAddr::page_table_index`, after `VirtAddr::new_truncate`: the nine
/// bits of the address that select the entry in a table of the given level.
#[verifier::external_body]
pub(crate) fn table_index(address: u64, level: Level) -> (slot: usize)
    ensures
        slot as int == slot_of(address as int / 4096, level.number()),
        slot < 512,
{
    let level = match level {
        Level::One => PageTableLevel::One,
        Level::Two => PageTableLevel::Two,
        Level::Three => PageTableLevel::Three,
        Level::Four => PageTableLevel::Four,
    };
    usize::from(VirtAddr::new_truncate(address).page_table_index(level))
}

/// `VirtAddr::try_new`: it accepts exactly the canonical addresses.
#[verifier::external_body]
pub(crate) fn is_canonical(address: u64) -> (accepted: bool)
    ensures
        accepted == canonical(address),
{
    VirtAddr::try_new(address).is_ok()
}

} // verus!
