//! Page tables of the processor, held by value and read and written entry by entry.

use vstd::prelude::*;
use x86_64::structures::paging::page_table::PageTableFlags;
use x86_64::structures::paging::PageTable;
use x86_64::PhysAddr;

verus! {

/// Bits of an entry that hold the physical address of what it points to.
pub const ADDRESS_MASK: u64 = 0x000f_ffff_ffff_f000;

/// Flag of an entry that points to something.
pub const PRESENT: u64 = 0x1;

/// Flag of an entry through which writes may go.
pub const WRITABLE: u64 = 0x2;

/// Flag of an entry through which no instruction may be fetched.
pub const NO_EXECUTE: u64 = 0x8000_0000_0000_0000;

/// `x86_64::structures::paging::PageTable`, carried as it is. What it holds
/// is known only through `table_entries`.
#[verifier::external_type_specification]
#[verifier::external_body]
pub struct ExPageTable(PageTable);

/// The 512 raw entries of a page table, in slot order.
pub uninterp spec fn table_entries(table: PageTable) -> Seq<u64>;

/// `PageTable::new`: a table whose 512 entries are all zero.
#[verifier::external_body]
pub(crate) fn empty_table() -> (table: PageTable)
    ensures
        table_entries(table) == Seq::new(512, |i: int| 0u64),
{
    PageTable::new()
}

/// `PageTableEntry::is_unused` on the entry in `slot`: whether the raw entry is zero.
#[verifier::external_body]
pub(crate) fn entry_unused(table: &PageTable, slot: usize) -> (unused: bool)
    requires
        slot < 512,
        table_entries(*table).len() == 512,
    ensures
        unused == (table_entries(*table)[slot as int] == 0),
{
    table[slot].is_unused()
}

/// `PageTableEntry::addr` on the entry in `slot`: the address bits of the raw entry.
#[verifier::external_body]
pub(crate) fn entry_address(table: &PageTable, slot: usize) -> (address: u64)
    requires
        slot < 512,
        table_entries(*table).len() == 512,
    ensures
        address == table_entries(*table)[slot as int] & ADDRESS_MASK,
{
    table[slot].addr().as_u64()
}

/// `PageTableEntry::set_addr` on the entry in `slot`: the raw entry becomes
/// the address or-ed with the flags; the other entries stay as they are.
#[verifier::external_body]
pub(crate) fn set_entry(table: &mut PageTable, slot: usize, address: u64, flags: u64)
    requires
        slot < 512,
        table_entries(*old(table)).len() == 512,
        address & ADDRESS_MASK == address,
    ensures
        table_entries(*final(table)) == table_entries(*old(table)).update(
            slot as int,
            address | flags,
        ),
{
    table[slot].set_addr(PhysAddr::new(address), PageTableFlags::from_bits_retain(flags));
}

/// `PageTableFlags::PRESENT`, as bits.
#[verifier::external_body]
pub(crate) fn present_flag() -> (bits: u64)
    ensures
        bits == PRESENT,
{
    PageTableFlags::PRESENT.bits()
}

/// `PageTableFlags::WRITABLE`, as bits.
#[verifier::external_body]
pub(crate) fn writable_flag() -> (bits: u64)
    ensures
        bits == WRITABLE,
{
    PageTableFlags::WRITABLE.bits()
}

/// `PageTableFlags::NO_EXECUTE`, as bits.
#[verifier::external_body]
pub(crate) fn no_execute_flag() -> (bits: u64)
    ensures
        bits == NO_EXECUTE,
{
    PageTableFlags::NO_EXECUTE.bits()
}

/// The flags of an entry that points to the next table: present and writable,
/// so that the permissions narrow only at the page.
pub open spec fn link_flags() -> u64 {
    0x3
}

/// The flags of an entry that points to a page with the given permissions.
pub open spec fn page_flags(writable: bool, executable: bool) -> u64 {
    if writable {
        if executable {
            0x3
        } else {
            0x8000_0000_0000_0003
        }
    } else {
        if executable {
            0x1
        } else {
            0x8000_0000_0000_0001
        }
    }
}

/// The raw entry for an address and flags: nonzero when the present flag is
/// set, and with the address in its address bits when the flags lie outside them.
pub proof fn lemma_entry_holds_address(address: u64, flags: u64)
    requires
        address % 4096 == 0,
        address < 0x10_0000_0000_0000,
        flags == 0x1 || flags == 0x3 || flags == 0x8000_0000_0000_0001 || flags
            == 0x8000_0000_0000_0003,
    ensures
        address & ADDRESS_MASK == address,
        (address | flags) & ADDRESS_MASK == address,
        (address | flags) != 0,
{
    assert(address & 0x000f_ffff_ffff_f000 == address) by (bit_vector)
        requires
            address % 4096 == 0,
            address < 0x10_0000_0000_0000,
    ;
    assert((address | flags) & 0x000f_ffff_ffff_f000 == address && (address | flags) != 0)
        by (bit_vector)
        requires
            address & 0x000f_ffff_ffff_f000 == address,
            flags == 0x1 || flags == 0x3 || flags == 0x8000_0000_0000_0001 || flags
                == 0x8000_0000_0000_0003,
    ;
}

/// The flags for the next table, made of the processor's flag bits.
pub(crate) fn make_link_flags() -> (flags: u64)
    ensures
        flags == link_flags(),
{
    let present = present_flag();
    let writable = writable_flag();
    assert(0x1u64 | 0x2u64 == 0x3u64) by (bit_vector);
    present | writable
}

/// The flags for a page: always present, writable on request, and closed to
/// instruction fetches unless the page is executable.
pub(crate) fn make_page_flags(writable: bool, executable: bool) -> (flags: u64)
    ensures
        flags == page_flags(writable, executable),
{
    let mut flags = present_flag();
    if writable {
        let bit = writable_flag();
        assert(0x1u64 | 0x2u64 == 0x3u64) by (bit_vector);
        flags = flags | bit;
    }
    if !executable {
        let bit = no_execute_flag();
        assert(0x1u64 | 0x8000_0000_0000_0000u64 == 0x8000_0000_0000_0001u64) by (bit_vector);
        assert(0x3u64 | 0x8000_0000_0000_0000u64 == 0x8000_0000_0000_0003u64) by (bit_vector);
        flags = flags | bit;
    }
    flags
}

} // verus!
