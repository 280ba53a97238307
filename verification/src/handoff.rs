//! What the loader hands to the kernel: the memory map as the firmware left
//! it, and where to find physical memory and the platform tables.

use vstd::prelude::*;
use crate::image::KernelImage;

verus! {

/// Virtual address at which the kernel finds physical address 0.
pub const PHYSICAL_MEMORY_OFFSET: u64 = 0xFFFF_8000_0000_0000;

/// One region of physical memory, as the firmware describes it.
#[derive(Clone, Copy, Debug, PartialEq, Eq, Structural)]
pub struct MemoryDescriptor {
    pub physical_start: u64,
    pub page_count: u64,
    pub region_type: u32,
    pub attributes: u64,
}

/// The memory map as the firmware captured it when it retired.
#[derive(Clone, Debug)]
pub struct MemoryMap {
    pub descriptors: Vec<MemoryDescriptor>,
}

/// Number of pages in the regions, all together.
pub open spec fn page_total(descriptors: Seq<MemoryDescriptor>) -> int
    decreases descriptors.len(),
{
    if descriptors.len() == 0 {
        0
    } else {
        page_total(descriptors.drop_last()) + descriptors.last().page_count
    }
}

impl View for MemoryMap {
    type V = Seq<MemoryDescriptor>;

    open spec fn view(&self) -> Seq<MemoryDescriptor> {
        self.descriptors@
    }
}

impl MemoryMap {
    /// Number of pages that the map accounts for, unless it is too large to tell.
    pub fn pages(&self) -> (total: Option<u64>)
        ensures
            match total {
                Some(total) => total == page_total(self@),
                None => page_total(self@) > u64::MAX,
            },
    {
        let mut total: u64 = 0;
        let mut index: usize = 0;
        while index < self.descriptors.len()
            invariant
                index <= self.descriptors.len(),
                total == page_total(self.descriptors@.take(index as int)),
            decreases self.descriptors.len() - index,
        {
            proof {
                let taken = self.descriptors@.take(index as int + 1);
                assert(taken.drop_last() =~= self.descriptors@.take(index as int));
                lemma_page_total_grows(self.descriptors@, index as int + 1);
            }
            total = match total.checked_add(self.descriptors[index].page_count) {
                Some(sum) => sum,
                None => {
                    return None;
                },
            };
            index = index + 1;
        }
        assert(self.descriptors@.take(index as int) =~= self.descriptors@);
        Some(total)
    }
}

/// The pages of the first regions are among the pages of all.
pub proof fn lemma_page_total_grows(descriptors: Seq<MemoryDescriptor>, count: int)
    requires
        0 <= count <= descriptors.len(),
    ensures
        0 <= page_total(descriptors.take(count)) <= page_total(descriptors),
    decreases descriptors.len() - count,
{
    if count == 0 {
        assert(descriptors.take(0) =~= Seq::<MemoryDescriptor>::empty());
        lemma_page_total_positive(descriptors);
    } else if count < descriptors.len() {
        lemma_page_total_grows(descriptors, count + 1);
        assert(descriptors.take(count + 1).drop_last() =~= descriptors.take(count));
        lemma_page_total_positive(descriptors.take(count));
    } else {
        assert(descriptors.take(count) =~= descriptors);
        lemma_page_total_positive(descriptors);
    }
}

proof fn lemma_page_total_positive(descriptors: Seq<MemoryDescriptor>)
    ensures
        0 <= page_total(descriptors),
    decreases descriptors.len(),
{
    if descriptors.len() > 0 {
        lemma_page_total_positive(descriptors.drop_last());
    }
}

/// The record that the kernel receives: its fields, in this order, are the
/// contract between loader and kernel.
#[derive(Debug)]
pub struct BootInfo {
    /// The memory map as the firmware left it.
    pub memory_map: MemoryMap,
    /// The offset into the virtual address space where the physical memory is mapped.
    pub physical_memory_offset: u64,
    /// Physical address of the ACPI 2 root pointer.
    pub acpi2_rsdp_addr: u64,
}

impl BootInfo {
    /// The record for a memory map and the address of the platform tables.
    pub fn new(memory_map: MemoryMap, acpi2_rsdp_addr: u64) -> (info: BootInfo)
        ensures
            info.memory_map == memory_map,
            info.physical_memory_offset == PHYSICAL_MEMORY_OFFSET,
            info.acpi2_rsdp_addr == acpi2_rsdp_addr,
    {
        BootInfo { memory_map, physical_memory_offset: PHYSICAL_MEMORY_OFFSET, acpi2_rsdp_addr }
    }
}

/// The last step of the loader: where to jump, and what to pass.
#[derive(Debug)]
pub struct Dispatch {
    /// Address of the kernel's entry function.
    pub entry_point: u64,
    /// The one argument of the entry function.
    pub boot_info: BootInfo,
}

/// Puts together the jump into the kernel: the entry point that the image
/// names, with the record made of the memory map and the platform tables.
pub fn dispatch(image: &KernelImage, memory_map: MemoryMap, acpi2_rsdp_addr: u64) -> (jump:
    Dispatch)
    ensures
        jump.entry_point == image.entry_point,
        jump.boot_info.memory_map == memory_map,
        jump.boot_info.physical_memory_offset == PHYSICAL_MEMORY_OFFSET,
        jump.boot_info.acpi2_rsdp_addr == acpi2_rsdp_addr,
{
    Dispatch {
        entry_point: image.entry_point,
        boot_info: BootInfo::new(memory_map, acpi2_rsdp_addr),
    }
}

} // verus!
