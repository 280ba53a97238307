//! The address space under construction: an arena of frames that holds the
//! page-table hierarchy and the pages it maps.

use vstd::prelude::*;
use x86_64::structures::paging::PageTable;
use crate::address::{
    canonical, is_canonical, lemma_path, page_of, slot_of, span, table_index, Level,
    LINEAR_LIMIT, PAGE_COUNT, PAGE_SIZE,
};
use crate::error::LoadError;
use crate::frame::FrameAllocator;
use crate::image::{Permissions, Segment};
use crate::table::{
    empty_table, entry_address, entry_unused, lemma_entry_holds_address, link_flags,
    make_link_flags, make_page_flags, page_flags, set_entry, table_entries, ADDRESS_MASK,
};

verus! {

/// One frame of the arena: a page table of the hierarchy, or a page of the kernel.
pub enum Frame {
    /// A table of the given level. `region` says which part of the address
    /// space it covers: the number of the first page under it, divided by the
    /// number of pages that a table of this level spans.
    Table { level: Level, region: u64, table: PageTable },
    /// The contents and permissions of one virtual page.
    Page { page: u64, writable: bool, executable: bool, bytes: Vec<u8> },
}

impl Frame {
    /// Level of a table; 0 for a page.
    pub open spec fn level(self) -> int {
        match self {
            Frame::Table { level, .. } => level.number(),
            Frame::Page { .. } => 0,
        }
    }

    /// Region of a table; the page number of a page.
    pub open spec fn region(self) -> int {
        match self {
            Frame::Table { region, .. } => region as int,
            Frame::Page { page, .. } => page as int,
        }
    }

    /// Raw entries of a table; empty for a page.
    pub open spec fn entries(self) -> Seq<u64> {
        match self {
            Frame::Table { table, .. } => table_entries(table),
            Frame::Page { .. } => Seq::empty(),
        }
    }

    /// Whether a page is writable; false for a table.
    pub open spec fn writable(self) -> bool {
        match self {
            Frame::Table { .. } => false,
            Frame::Page { writable, .. } => writable,
        }
    }

    /// Whether a page is executable; false for a table.
    pub open spec fn executable(self) -> bool {
        match self {
            Frame::Table { .. } => false,
            Frame::Page { executable, .. } => executable,
        }
    }

    /// Contents of a page; empty for a table.
    pub open spec fn contents(self) -> Seq<u8> {
        match self {
            Frame::Table { .. } => Seq::empty(),
            Frame::Page { bytes, .. } => bytes@,
        }
    }
}

/// What one mapped page looks like to the kernel.
pub struct PageView {
    pub writable: bool,
    pub executable: bool,
    pub bytes: Seq<u8>,
}

/// A page that nothing has been written to: read-only, not executable, all zero.
pub open spec fn blank_page() -> PageView {
    PageView { writable: false, executable: false, bytes: Seq::new(4096, |i: int| 0u8) }
}

/// Whether a page that holds `held` would be writable and executable at once
/// if it took the permissions asked for as well.
pub open spec fn overloaded(held: PageView, writable: bool, executable: bool) -> bool {
    (held.writable || writable) && (held.executable || executable)
}

/// The address space as the kernel and the mapper see it.
pub struct SpaceView {
    /// The mapped pages, by page number.
    pub pages: Map<int, PageView>,
    /// The tables below the root, each as its level (1 to 3) and region.
    pub tables: Set<(int, int)>,
    /// Frames that the allocator can still hand out.
    pub free: int,
}

impl SpaceView {
    /// Whether the hierarchy holds the node of the given level and region:
    /// a page for level 0, a table for levels 1 to 3.
    pub open spec fn has_node(self, level: int, region: int) -> bool {
        if level == 0 {
            self.pages.dom().contains(region)
        } else {
            self.tables.contains((level, region))
        }
    }

    /// The page as it is mapped, or a blank page if it is not.
    pub open spec fn page_or_blank(self, page: int) -> PageView {
        if self.pages.dom().contains(page) {
            self.pages[page]
        } else {
            blank_page()
        }
    }

    /// 1 if the node is absent, else 0.
    pub open spec fn lacks(self, level: int, region: int) -> int {
        if self.has_node(level, region) {
            0
        } else {
            1
        }
    }

    /// Number of frames that mapping the page takes: one for the page and one
    /// for each table on its path, as far as they are absent.
    pub open spec fn page_cost(self, page: int) -> int {
        self.lacks(0, page) + self.lacks(1, page / span(1)) + self.lacks(2, page / span(2))
            + self.lacks(3, page / span(3))
    }

    /// The space after the page has been mapped with at least the given
    /// permissions: the tables on its path exist, the page keeps what it held
    /// and gains the permissions.
    pub open spec fn with_page(self, page: int, writable: bool, executable: bool) -> SpaceView {
        let before = self.page_or_blank(page);
        SpaceView {
            pages: self.pages.insert(
                page,
                PageView {
                    writable: before.writable || writable,
                    executable: before.executable || executable,
                    bytes: before.bytes,
                },
            ),
            tables: self.tables.insert((1, page / span(1))).insert((2, page / span(2))).insert(
                (3, page / span(3)),
            ),
            free: self.free - self.page_cost(page),
        }
    }

    /// The space after the contents of a mapped page have been replaced.
    pub open spec fn with_bytes(self, page: int, bytes: Seq<u8>) -> SpaceView {
        SpaceView {
            pages: self.pages.insert(
                page,
                PageView {
                    writable: self.pages[page].writable,
                    executable: self.pages[page].executable,
                    bytes,
                },
            ),
            tables: self.tables,
            free: self.free,
        }
    }
}

/// The page-table hierarchy and the pages it maps, all in frames that one
/// allocator handed out. Frame 0 of the arena is the root table.
pub struct AddressSpace {
    allocator: FrameAllocator,
    base: u64,
    frames: Vec<Frame>,
}

impl View for AddressSpace {
    type V = SpaceView;

    closed spec fn view(&self) -> SpaceView {
        SpaceView {
            pages: Map::new(
                |page: int| self.node_at(0, page) is Some,
                |page: int| self.page_view(self.node_at(0, page).unwrap()),
            ),
            tables: Set::new(
                |node: (int, int)| 1 <= node.0 <= 3 && self.node_at(node.0, node.1) is Some,
            ),
            free: self.allocator.free(),
        }
    }
}

/// The contents of a fresh frame: 4096 zero bytes.
fn zero_page() -> (bytes: Vec<u8>)
    ensures
        bytes@ == Seq::new(4096, |i: int| 0u8),
{
    let mut bytes: Vec<u8> = Vec::new();
    let mut count: usize = 0;
    while count < 4096
        invariant
            count <= 4096,
            bytes@ == Seq::new(count as nat, |i: int| 0u8),
        decreases 4096 - count,
    {
        bytes.push(0);
        count = count + 1;
    }
    bytes
}

/// Writes the bytes of the segment that fall into the page over `bytes`.
fn fill(bytes: &mut Vec<u8>, page: u64, segment: &Segment, image: &[u8])
    requires
        old(bytes).len() == 4096,
        page < PAGE_COUNT,
        segment.well_formed(),
        segment.fits(image@.len() as int),
    ensures
        final(bytes)@ == segment.bytes_after(image@, page as int, old(bytes)@),
{
    let start = segment.start_position();
    let length = image.len();
    let first = page * PAGE_SIZE;
    let ghost before = bytes@;
    let mut k: usize = 0;
    proof {
        segment.lemma_range();
    }
    while k < 4096
        invariant
            k <= 4096,
            bytes.len() == 4096,
            before.len() == 4096,
            length == image@.len(),
            page < PAGE_COUNT,
            first == page * 4096,
            start == segment.start(),
            segment.well_formed(),
            segment.fits(image@.len() as int),
            0 <= segment.start() < segment.end() <= 0x1_0000_0000_0000,
            forall|j: int|
                0 <= j < k ==> bytes@[j] == segment.bytes_after(image@, page as int, before)[j],
            forall|j: int| k <= j < 4096 ==> bytes@[j] == before[j],
        decreases 4096 - k,
    {
        let position = first + k as u64;
        if position >= start && position - start < segment.memory_size {
            let offset = position - start;
            let byte = if offset < segment.physical_size {
                image[(segment.file_offset + offset) as usize]
            } else {
                0
            };
            bytes[k] = byte;
        }
        k = k + 1;
    }
    assert(bytes@ =~= segment.bytes_after(image@, page as int, before));
}

impl AddressSpace {
    /// Arena index of the frame at a physical address.
    pub closed spec fn index_of(&self, address: u64) -> int {
        (address - self.base) / 4096
    }

    /// Physical address of the frame at an arena index.
    pub closed spec fn address_of(&self, index: int) -> int {
        self.base + index * 4096
    }

    /// Arena index that the entry `slot` of table `index` points to.
    pub closed spec fn child_of(&self, index: int, slot: int) -> Option<int> {
        let entry = self.frames[index].entries()[slot];
        if entry == 0 {
            None
        } else {
            Some(self.index_of(entry & ADDRESS_MASK))
        }
    }

    /// Arena index of the node of the given level and region, found by
    /// walking down from the root.
    pub closed spec fn node_at(&self, level: int, region: int) -> Option<int>
        decreases 4 - level,
    {
        if level >= 4 {
            if level == 4 && region == 0 {
                Some(0)
            } else {
                None
            }
        } else if level < 0 {
            None
        } else {
            match self.node_at(level + 1, region / 512) {
                None => None,
                Some(table) => self.child_of(table, region % 512),
            }
        }
    }

    /// The page held by the frame at an arena index.
    pub closed spec fn page_view(&self, index: int) -> PageView {
        PageView {
            writable: self.frames[index].writable(),
            executable: self.frames[index].executable(),
            bytes: self.frames[index].contents(),
        }
    }

    /// Arena index of the frame that holds the page, if it is mapped.
    pub closed spec fn frame_of(&self, page: int) -> Option<int> {
        self.node_at(0, page)
    }

    /// Physical address of the root table.
    pub closed spec fn root(&self) -> int {
        self.base as int
    }

    /// Number of frames in the arena.
    pub closed spec fn frame_total(&self) -> int {
        self.frames.len() as int
    }

    spec fn entry_wf(&self, index: int, slot: int) -> bool {
        let frame = self.frames[index];
        let entry = frame.entries()[slot];
        entry != 0 ==> {
            let child = self.index_of(entry & ADDRESS_MASK);
            &&& index < child < self.frames.len()
            &&& (entry & ADDRESS_MASK) as int == self.address_of(child)
            &&& self.frames[child].level() == frame.level() - 1
            &&& self.frames[child].region() == frame.region() * 512 + slot
            &&& entry == (entry & ADDRESS_MASK) | (if frame.level() > 1 {
                link_flags()
            } else {
                page_flags(self.frames[child].writable(), self.frames[child].executable())
            })
        }
    }

    /// Whether the walk from the root for the frame's own level and region ends in it.
    spec fn reached(&self, index: int) -> bool {
        self.node_at(self.frames[index].level(), self.frames[index].region()) == Some(index)
    }

    spec fn frame_wf(&self, index: int) -> bool {
        match self.frames[index] {
            Frame::Table { level, region, table } => {
                &&& region < span(4 - level.number())
                &&& table_entries(table).len() == 512
                &&& forall|slot: int| 0 <= slot < 512 ==> #[trigger] self.entry_wf(index, slot)
            },
            Frame::Page { page, writable, executable, bytes } => {
                &&& page < PAGE_COUNT
                &&& bytes.len() == 4096
                &&& !(writable && executable)
            },
        }
    }

    /// The arena is a tree of tables rooted in frame 0: every entry in use
    /// points to a later frame of the arena that is the table or page for
    /// exactly the part of the address space that the entry stands for, with
    /// the flags that belong to it; and no page is writable and executable.
    pub closed spec fn wf(&self) -> bool {
        &&& self.allocator.wf()
        &&& self.frames.len() >= 1
        &&& self.base % 4096 == 0
        &&& self.base + self.frames.len() * 4096 == self.allocator.next_address()
        &&& self.frames[0].level() == 4
        &&& self.frames[0].region() == 0
        &&& forall|index: int| 0 <= index < self.frames.len() ==> #[trigger] self.frame_wf(index)
        &&& forall|index: int| 0 <= index < self.frames.len() ==> #[trigger] self.reached(index)
    }

    proof fn lemma_node(&self, level: int, region: int)
        requires
            self.wf(),
        ensures
            match self.node_at(level, region) {
                Some(index) => {
                    &&& 0 <= index < self.frames.len()
                    &&& self.frames[index].level() == level
                    &&& self.frames[index].region() == region
                    &&& 0 <= level <= 4
                    &&& 0 <= region < span(4 - level)
                },
                None => true,
            },
        decreases 4 - level,
    {
        if level >= 4 {
            assert(self.frame_wf(0));
        } else if level < 0 {
        } else {
            self.lemma_node(level + 1, region / 512);
            match self.node_at(level + 1, region / 512) {
                None => {},
                Some(table) => {
                    assert(self.frame_wf(table));
                    assert(self.entry_wf(table, region % 512));
                    if self.child_of(table, region % 512) is Some {
                        let index = self.child_of(table, region % 512).unwrap();
                        assert(self.frame_wf(index));
                    }
                },
            }
        }
    }

    /// An address space with an empty root table in the next frame of the allocator.
    pub fn new(allocator: FrameAllocator) -> (result: Result<AddressSpace, LoadError>)
        requires
            allocator.wf(),
        ensures
            match result {
                Ok(space) => {
                    &&& allocator.free() > 0
                    &&& space.wf()
                    &&& space.root() == allocator.next_address()
                    &&& space@.pages == Map::<int, PageView>::empty()
                    &&& space@.tables == Set::<(int, int)>::empty()
                    &&& space@.free == allocator.free() - 1
                },
                Err(error) => allocator.free() == 0 && error == LoadError::ResourceExhaustion,
            },
    {
        let mut allocator = allocator;
        let base = match allocator.allocate_frame() {
            Ok(address) => address,
            Err(error) => {
                return Err(error);
            },
        };
        let mut frames: Vec<Frame> = Vec::new();
        frames.push(Frame::Table { level: Level::Four, region: 0, table: empty_table() });
        let space = AddressSpace { allocator, base, frames };
        proof {
            assert forall|slot: int| 0 <= slot < 512 implies #[trigger] space.entry_wf(0, slot) by {
            }
            assert(space.frame_wf(0));
            assert(space.reached(0));
            assert forall|level: int, region: int| 0 <= level <= 3 implies #[trigger] space.node_at(
                level,
                region,
            ) is None by {
                space.lemma_empty_root(level, region);
            }
            assert(space@.pages =~= Map::<int, PageView>::empty());
            assert(space@.tables =~= Set::<(int, int)>::empty());
        }
        Ok(space)
    }

    proof fn lemma_empty_root(&self, level: int, region: int)
        requires
            self.frames.len() >= 1,
            forall|slot: int| 0 <= slot < 512 ==> self.frames[0].entries()[slot] == 0,
        ensures
            level <= 3 ==> self.node_at(level, region) is None,
        decreases 4 - level,
    {
        if 0 <= level <= 3 {
            self.lemma_empty_root(level + 1, region / 512);
        }
    }

    /// Physical address of the root table. It never changes.
    pub fn root_address(&self) -> (address: u64)
        ensures
            address == self.root(),
    {
        self.base
    }

    /// Number of frames that the allocator can still hand out.
    pub fn free_frames(&self) -> (count: u64)
        requires
            self.wf(),
        ensures
            count == self@.free,
    {
        self.allocator.remaining()
    }

    fn child(&self, index: usize, slot: usize) -> (result: Option<usize>)
        requires
            self.wf(),
            index < self.frames.len(),
            self.frames[index as int].level() >= 1,
            slot < 512,
        ensures
            match result {
                Some(child) => self.child_of(index as int, slot as int) == Some(child as int)
                    && child < self.frames.len(),
                None => self.child_of(index as int, slot as int) is None,
            },
    {
        proof {
            assert(self.frame_wf(index as int));
            assert(self.entry_wf(index as int, slot as int));
        }
        match &self.frames[index] {
            Frame::Table { table, .. } => {
                if entry_unused(table, slot) {
                    None
                } else {
                    let address = entry_address(table, slot);
                    Some(((address - self.base) / PAGE_SIZE) as usize)
                }
            },
            Frame::Page { .. } => None,
        }
    }

    proof fn lemma_nodes_after_attach(
        before: &AddressSpace,
        after: &AddressSpace,
        parent: int,
        slot: int,
        level: int,
        region: int,
    )
        requires
            before.wf(),
            after.base == before.base,
            after.frames.len() == before.frames.len() + 1,
            0 <= parent < before.frames.len(),
            before.frames[parent].level() >= 1,
            0 <= slot < 512,
            before.child_of(parent, slot) is None,
            before.node_at(before.frames[parent].level(), before.frames[parent].region()) == Some(
                parent,
            ),
            after.child_of(parent, slot) == Some(before.frames.len() as int),
            forall|index: int, other: int|
                0 <= index < before.frames.len() && 0 <= other < 512 && !(index == parent && other
                    == slot) ==> #[trigger] after.child_of(index, other) == before.child_of(
                    index,
                    other,
                ),
            before.frames[parent].level() >= 2 ==> forall|other: int|
                0 <= other < 512 ==> #[trigger] after.child_of(
                    before.frames.len() as int,
                    other,
                ) is None,
        ensures
            before.node_at(
                before.frames[parent].level() - 1,
                before.frames[parent].region() * 512 + slot,
            ) is None,
            after.node_at(level, region) == (if level == before.frames[parent].level() - 1 && region
                == before.frames[parent].region() * 512 + slot {
                Some(before.frames.len() as int)
            } else {
                before.node_at(level, region)
            }),
        decreases 4 - level,
    {
        let parent_level = before.frames[parent].level();
        let parent_region = before.frames[parent].region();
        before.lemma_node(parent_level, parent_region);
        assert((parent_region * 512 + slot) / 512 == parent_region);
        assert((parent_region * 512 + slot) % 512 == slot);
        assert(before.node_at(parent_level - 1, parent_region * 512 + slot) is None);
        if level >= 4 {
        } else if level < 0 {
        } else {
            Self::lemma_nodes_after_attach(before, after, parent, slot, level + 1, region / 512);
            before.lemma_node(level + 1, region / 512);
            assert(region == (region / 512) * 512 + region % 512);
        }
    }

    /// Puts `frame` into the next frame of the allocator and points the
    /// unused entry `slot` of the table `parent` to it.
    fn attach(&mut self, parent: usize, slot: usize, frame: Frame) -> (result: Result<
        usize,
        LoadError,
    >)
        requires
            old(self).wf(),
            parent < old(self).frames.len(),
            old(self).frames[parent as int].level() >= 1,
            slot < 512,
            old(self).child_of(parent as int, slot as int) is None,
            old(self).node_at(
                old(self).frames[parent as int].level(),
                old(self).frames[parent as int].region(),
            ) == Some(parent as int),
            frame.level() == old(self).frames[parent as int].level() - 1,
            frame.region() == old(self).frames[parent as int].region() * 512 + slot,
            match frame {
                Frame::Table { table, .. } => table_entries(table) == Seq::new(512, |i: int| 0u64),
                Frame::Page { writable, executable, bytes, .. } => bytes.len() == 4096 && !(writable
                    && executable),
            },
        ensures
            match result {
                Ok(child) => {
                    &&& final(self).wf()
                    &&& final(self).base == old(self).base
                    &&& child == old(self).frames.len()
                    &&& final(self).frames.len() == old(self).frames.len() + 1
                    &&& final(self).frames[child as int] == frame
                    &&& old(self).allocator.free() > 0
                    &&& final(self).allocator.free() == old(self).allocator.free() - 1
                    &&& old(self).node_at(frame.level(), frame.region()) is None
                    &&& forall|level: int, region: int|
                        #[trigger] final(self).node_at(level, region) == (if level == frame.level()
                            && region == frame.region() {
                            Some(child as int)
                        } else {
                            old(self).node_at(level, region)
                        })
                    &&& forall|index: int|
                        0 <= index < old(self).frames.len() && index != parent
                            ==> final(self).frames[index] == old(self).frames[index]
                },
                Err(error) => {
                    &&& error == LoadError::ResourceExhaustion
                    &&& old(self).allocator.free() == 0
                    &&& *final(self) == *old(self)
                },
            },
    {
        if self.allocator.remaining() == 0 {
            return Err(LoadError::ResourceExhaustion);
        }
        let ghost before = *self;
        proof {
            self.allocator.lemma_bounds();
            assert(self.frame_wf(parent as int));
        }
        let address = match self.allocator.allocate_frame() {
            Ok(address) => address,
            Err(error) => {
                return Err(error);
            },
        };
        let child = self.frames.len();
        let flags = match &frame {
            Frame::Table { .. } => make_link_flags(),
            Frame::Page { writable, executable, .. } => make_page_flags(*writable, *executable),
        };
        proof {
            lemma_entry_holds_address(address, flags);
        }
        self.frames.push(frame);
        match &mut self.frames[parent] {
            Frame::Table { table, .. } => {
                set_entry(table, slot, address, flags);
            },
            Frame::Page { .. } => {},
        }
        proof {
            let after = *self;
            assert(after.index_of(address) == child as int);
            assert(after.child_of(parent as int, slot as int) == Some(child as int));
            assert forall|index: int, other: int|
                0 <= index < before.frames.len() && 0 <= other < 512 && !(index == parent && other
                    == slot) implies #[trigger] after.child_of(index, other) == before.child_of(
                index,
                other,
            ) by {
                if index != parent {
                    assert(after.frames[index] == before.frames[index]);
                }
            }
            assert forall|index: int|
                0 <= index < after.frames.len() implies #[trigger] after.frame_wf(index) by {
                if index == child {
                    if frame.level() >= 1 {
                        assert forall|other: int|
                            0 <= other < 512 implies #[trigger] after.entry_wf(index, other) by {
                        }
                    }
                } else {
                    assert(before.frame_wf(index));
                    if before.frames[index].level() >= 1 {
                        assert forall|other: int|
                            0 <= other < 512 implies #[trigger] after.entry_wf(index, other) by {
                            assert(before.entry_wf(index, other));
                        }
                    }
                }
            }
            assert forall|level: int, region: int| #[trigger]
                after.node_at(level, region) == (if level == frame.level() && region
                    == frame.region() {
                    Some(child as int)
                } else {
                    before.node_at(level, region)
                }) by {
                Self::lemma_nodes_after_attach(
                    &before,
                    &after,
                    parent as int,
                    slot as int,
                    level,
                    region,
                );
            }
            Self::lemma_nodes_after_attach(&before, &after, parent as int, slot as int, 0, 0);
            assert forall|index: int|
                0 <= index < after.frames.len() implies #[trigger] after.reached(index) by {
                if index != child {
                    assert(before.reached(index));
                }
            }
            assert(after.wf());
        }
        Ok(child)
    }

    proof fn lemma_nodes_same(before: &AddressSpace, after: &AddressSpace, level: int, region: int)
        requires
            before.wf(),
            forall|index: int, slot: int|
                0 <= index < before.frames.len() && 0 <= slot < 512 ==> #[trigger] after.child_of(
                    index,
                    slot,
                ) == before.child_of(index, slot),
        ensures
            after.node_at(level, region) == before.node_at(level, region),
        decreases 4 - level,
    {
        if 0 <= level < 4 {
            Self::lemma_nodes_same(before, after, level + 1, region / 512);
            before.lemma_node(level + 1, region / 512);
        }
    }

    /// How the space changes when the node of the given level and region is
    /// made sure of: not at all if the node was there; else the hierarchy
    /// gains this one node, one frame leaves the allocator, and no page changes.
    spec fn grown(before: AddressSpace, after: AddressSpace, level: int, region: int) -> bool {
        &&& after.wf()
        &&& after.base == before.base
        &&& match before.node_at(level, region) {
            Some(_) => after == before,
            None => {
                &&& after.node_at(level, region) is Some
                &&& forall|l: int, r: int|
                    (l != level || r != region) ==> #[trigger] after.node_at(l, r)
                        == before.node_at(l, r)
                &&& after.allocator.free() == before.allocator.free() - 1
                &&& before.allocator.free() > 0
                &&& after.frames.len() >= before.frames.len()
                &&& forall|index: int|
                    0 <= index < before.frames.len() && before.frames[index].level() == 0
                        ==> #[trigger] after.frames[index] == before.frames[index]
            },
        }
    }

    /// The table of the given level and region, made if it is absent, below
    /// the table `parent`, whose entry `slot` stands for it.
    fn descend(&mut self, parent: usize, slot: usize, level: Level, region: u64) -> (result:
        Result<usize, LoadError>)
        requires
            old(self).wf(),
            parent < old(self).frames.len(),
            slot < 512,
            level.number() <= 3,
            old(self).node_at(level.number() + 1, region as int / 512) == Some(parent as int),
            slot == region as int % 512,
        ensures
            match result {
                Ok(child) => {
                    &&& Self::grown(*old(self), *final(self), level.number(), region as int)
                    &&& final(self).node_at(level.number(), region as int) == Some(child as int)
                    &&& child < final(self).frames.len()
                },
                Err(error) => {
                    &&& error == LoadError::ResourceExhaustion
                    &&& *final(self) == *old(self)
                    &&& old(self).node_at(level.number(), region as int) is None
                    &&& old(self).allocator.free() == 0
                },
            },
    {
        proof {
            self.lemma_node(level.number() + 1, region as int / 512);
            self.lemma_node(level.number(), region as int);
        }
        match self.child(parent, slot) {
            Some(child) => Ok(child),
            None => {
                let frame = Frame::Table { level, region, table: empty_table() };
                self.attach(parent, slot, frame)
            },
        }
    }

    /// Gives the mapped page in frame `index` the permissions asked for, in
    /// addition to those it has, and writes them into the entry `slot` of the
    /// table `parent`, which points to it.
    fn raise(&mut self, parent: usize, slot: usize, index: usize, writable: bool, executable: bool)
        requires
            old(self).wf(),
            parent < old(self).frames.len(),
            old(self).frames[parent as int].level() == 1,
            slot < 512,
            old(self).child_of(parent as int, slot as int) == Some(index as int),
            index < old(self).frames.len(),
            !overloaded(old(self).page_view(index as int), writable, executable),
        ensures
            final(self).wf(),
            final(self).base == old(self).base,
            final(self).allocator == old(self).allocator,
            final(self).frames.len() == old(self).frames.len(),
            forall|l: int, r: int| #[trigger]
                final(self).node_at(l, r) == old(self).node_at(l, r),
            forall|other: int|
                0 <= other < old(self).frames.len() && other != index
                    && old(self).frames[other].level() == 0 ==> #[trigger] final(
                    self).frames[other] == old(self).frames[other],
            final(self).frames[index as int].level() == 0,
            final(self).page_view(index as int) == (PageView {
                writable: old(self).page_view(index as int).writable || writable,
                executable: old(self).page_view(index as int).executable || executable,
                bytes: old(self).page_view(index as int).bytes,
            }),
    {
        let ghost before = *self;
        proof {
            self.allocator.lemma_bounds();
            assert(self.frame_wf(parent as int));
            assert(self.entry_wf(parent as int, slot as int));
            assert(self.frame_wf(index as int));
        }
        let mut new_writable = writable;
        let mut new_executable = executable;
        match &mut self.frames[index] {
            Frame::Page { writable: held_writable, executable: held_executable, .. } => {
                new_writable = *held_writable || writable;
                new_executable = *held_executable || executable;
                *held_writable = new_writable;
                *held_executable = new_executable;
            },
            Frame::Table { .. } => {},
        }
        let flags = make_page_flags(new_writable, new_executable);
        match &mut self.frames[parent] {
            Frame::Table { table, .. } => {
                let address = entry_address(table, slot);
                proof {
                    lemma_entry_holds_address(address, flags);
                }
                set_entry(table, slot, address, flags);
            },
            Frame::Page { .. } => {},
        }
        proof {
            let after = *self;
            assert forall|i: int, other: int|
                0 <= i < before.frames.len() && 0 <= other < 512 implies #[trigger] after.child_of(
                i,
                other,
            ) == before.child_of(i, other) by {
                if i != parent && i != index {
                    assert(after.frames[i] == before.frames[i]);
                }
            }
            assert(before.reached(parent as int));
            assert forall|i: int| 0 <= i < after.frames.len() implies #[trigger] after.frame_wf(
                i,
            ) by {
                assert(before.frame_wf(i));
                assert(before.reached(i));
                if before.frames[i].level() >= 1 {
                    assert forall|other: int| 0 <= other < 512 implies #[trigger] after.entry_wf(
                        i,
                        other,
                    ) by {
                        assert(before.entry_wf(i, other));
                    }
                }
            }
            assert forall|l: int, r: int| #[trigger]
                after.node_at(l, r) == before.node_at(l, r) by {
                Self::lemma_nodes_same(&before, &after, l, r);
            }
            assert forall|i: int| 0 <= i < after.frames.len() implies #[trigger] after.reached(
                i,
            ) by {
                assert(before.reached(i));
            }
        }
    }

    /// Maps the page, if it is not mapped yet, into a zeroed frame, making
    /// the tables on its path as needed, and gives it the permissions asked
    /// for in addition to those it has.
    pub(crate) fn map_page(&mut self, page: u64, writable: bool, executable: bool) -> (result:
        Result<usize, LoadError>)
        requires
            old(self).wf(),
            page < PAGE_COUNT,
            !overloaded(old(self)@.page_or_blank(page as int), writable, executable),
        ensures
            final(self).wf(),
            final(self).root() == old(self).root(),
            match result {
                Ok(index) => {
                    &&& old(self)@.free >= old(self)@.page_cost(page as int)
                    &&& final(self)@ == old(self)@.with_page(page as int, writable, executable)
                    &&& final(self).frame_of(page as int) == Some(index as int)
                    &&& index < final(self).frame_total()
                },
                Err(error) => {
                    &&& error == LoadError::ResourceExhaustion
                    &&& old(self)@.free < old(self)@.page_cost(page as int)
                    &&& final(self)@.free == 0
                },
            },
    {
        let ghost s0 = *self;
        let address = page * PAGE_SIZE;
        proof {
            lemma_path(page as int);
            self.allocator.lemma_bounds();
            assert(self.node_at(4, 0) == Some(0int));
            assert(address as int / 4096 == page);
        }
        let third = match self.descend(
            0,
            table_index(address, Level::Four),
            Level::Three,
            page / 134217728,
        ) {
            Ok(index) => index,
            Err(error) => {
                return Err(error);
            },
        };
        let ghost s1 = *self;
        let second = match self.descend(
            third,
            table_index(address, Level::Three),
            Level::Two,
            page / 262144,
        ) {
            Ok(index) => index,
            Err(error) => {
                return Err(error);
            },
        };
        let ghost s2 = *self;
        let first = match self.descend(
            second,
            table_index(address, Level::Two),
            Level::One,
            page / 512,
        ) {
            Ok(index) => index,
            Err(error) => {
                return Err(error);
            },
        };
        let ghost s3 = *self;
        let slot = table_index(address, Level::One);
        proof {
            self.lemma_node(1, page as int / 512);
            self.lemma_node(0, page as int);
            s0.lemma_node(0, page as int);
            self.allocator.lemma_bounds();
        }
        let result = match self.child(first, slot) {
            Some(index) => {
                self.raise(first, slot, index, writable, executable);
                Ok(index)
            },
            None => {
                let frame = Frame::Page { page, writable, executable, bytes: zero_page() };
                self.attach(first, slot, frame)
            },
        };
        proof {
            if result is Ok {
                let s4 = *self;
                let goal = s0@.with_page(page as int, writable, executable);
                assert forall|p: int| s4@.pages.dom().contains(p) implies #[trigger] s4@.pages[p]
                    == goal.pages[p] by {
                    s0.lemma_node(0, p);
                    s3.lemma_node(0, p);
                    s4.lemma_node(0, p);
                }
                assert(s4@.pages =~= goal.pages);
                assert(s4@.tables =~= goal.tables);
            }
        }
        result
    }

    /// Writes the bytes of the segment that fall into the page over the
    /// contents of the frame `index`, which holds the page.
    pub(crate) fn write_page(&mut self, index: usize, page: u64, segment: &Segment, image: &[u8])
        requires
            old(self).wf(),
            page < PAGE_COUNT,
            old(self).frame_of(page as int) == Some(index as int),
            segment.well_formed(),
            segment.fits(image@.len() as int),
        ensures
            final(self).wf(),
            final(self).root() == old(self).root(),
            final(self)@ == old(self)@.with_bytes(
                page as int,
                segment.bytes_after(image@, page as int, old(self)@.pages[page as int].bytes),
            ),
            final(self).frame_of(page as int) == Some(index as int),
    {
        let ghost before = *self;
        proof {
            self.lemma_node(0, page as int);
            assert(self.frame_wf(index as int));
        }
        match &mut self.frames[index] {
            Frame::Page { bytes, .. } => {
                fill(bytes, page, segment, image);
            },
            Frame::Table { .. } => {},
        }
        proof {
            let after = *self;
            assert forall|i: int, slot: int|
                0 <= i < before.frames.len() && 0 <= slot < 512 implies #[trigger] after.child_of(
                i,
                slot,
            ) == before.child_of(i, slot) by {
                if i != index {
                    assert(after.frames[i] == before.frames[i]);
                }
            }
            assert forall|l: int, r: int| #[trigger]
                after.node_at(l, r) == before.node_at(l, r) by {
                Self::lemma_nodes_same(&before, &after, l, r);
            }
            assert forall|i: int| 0 <= i < after.frames.len() implies #[trigger] after.frame_wf(
                i,
            ) by {
                assert(before.frame_wf(i));
                if before.frames[i].level() >= 1 {
                    assert forall|slot: int| 0 <= slot < 512 implies #[trigger] after.entry_wf(
                        i,
                        slot,
                    ) by {
                        assert(before.entry_wf(i, slot));
                    }
                }
            }
            assert forall|i: int| 0 <= i < after.frames.len() implies #[trigger] after.reached(
                i,
            ) by {
                assert(before.reached(i));
            }
            let goal = before@.with_bytes(
                page as int,
                segment.bytes_after(image@, page as int, before@.pages[page as int].bytes),
            );
            assert forall|p: int| after@.pages.dom().contains(p) implies #[trigger] after@.pages[p]
                == goal.pages[p] by {
                before.lemma_node(0, p);
            }
            assert(after@.pages =~= goal.pages);
            assert(after@.tables =~= goal.tables);
        }
    }

    /// The permissions of the page, if it is mapped: whether it is writable
    /// and whether it is executable.
    pub(crate) fn held(&self, page: u64) -> (result: Option<(bool, bool)>)
        requires
            self.wf(),
            page < PAGE_COUNT,
        ensures
            match result {
                Some((writable, executable)) => {
                    &&& self@.pages.dom().contains(page as int)
                    &&& writable == self@.pages[page as int].writable
                    &&& executable == self@.pages[page as int].executable
                },
                None => !self@.pages.dom().contains(page as int),
            },
    {
        match self.lookup(page) {
            Some(index) => {
                proof {
                    self.lemma_node(0, page as int);
                }
                match &self.frames[index] {
                    Frame::Page { writable, executable, .. } => Some((*writable, *executable)),
                    Frame::Table { .. } => None,
                }
            },
            None => None,
        }
    }

    /// A well-formed space has a count of free frames that is not negative,
    /// maps only pages of the 48-bit address space, and keeps every page
    /// 4096 bytes long and never both writable and executable.
    pub proof fn lemma_view(&self)
        requires
            self.wf(),
        ensures
            self@.free >= 0,
            forall|page: int| #[trigger]
                self@.pages.dom().contains(page) ==> {
                    &&& 0 <= page < PAGE_COUNT
                    &&& self@.pages[page].bytes.len() == 4096
                    &&& !(self@.pages[page].writable && self@.pages[page].executable)
                },
            forall|level: int, region: int| #[trigger]
                self@.tables.contains((level, region)) ==> 1 <= level <= 3 && 0 <= region < span(
                    4 - level,
                ),
    {
        self.allocator.lemma_bounds();
        assert forall|page: int| #[trigger] self@.pages.dom().contains(page) implies {
            &&& 0 <= page < PAGE_COUNT
            &&& self@.pages[page].bytes.len() == 4096
            &&& !(self@.pages[page].writable && self@.pages[page].executable)
        } by {
            self.lemma_node(0, page);
            assert(self.frame_wf(self.node_at(0, page).unwrap()));
        }
        assert forall|level: int, region: int| #[trigger]
            self@.tables.contains((level, region)) implies 1 <= level <= 3 && 0 <= region < span(
            4 - level,
        ) by {
            self.lemma_node(level, region);
        }
    }

    /// The frames of the arena, in the order in which the allocator handed
    /// them out. The frame at index `i` stands for the physical frame at
    /// `root() + 4096 * i`.
    pub closed spec fn arena(&self) -> Seq<Frame> {
        self.frames@
    }

    /// The frame of a mapped page is a frame of the arena that holds just
    /// what the page holds, and no two pages share a frame.
    pub proof fn lemma_frame_of(&self, page: int, other: int)
        requires
            self.wf(),
            self@.pages.dom().contains(page),
        ensures
            self.frame_of(page) matches Some(index) && {
                &&& 0 <= index < self.frame_total()
                &&& self.arena()[index] is Page
                &&& self.arena()[index].region() == page
                &&& self.arena()[index].contents() == self@.pages[page].bytes
                &&& self.arena()[index].writable() == self@.pages[page].writable
                &&& self.arena()[index].executable() == self@.pages[page].executable
            },
            self@.pages.dom().contains(other) && self.frame_of(other) == self.frame_of(page)
                ==> other == page,
    {
        self.lemma_node(0, page);
        self.lemma_node(0, other);
    }

    /// In every state of a well-formed space, no mapped page is writable and
    /// executable at once.
    pub proof fn lemma_write_xor_execute(&self, page: int)
        requires
            self.wf(),
            self@.pages.dom().contains(page),
        ensures
            !(self@.pages[page].writable && self@.pages[page].executable),
    {
        self.lemma_view();
    }

    /// The walk of the processor to a mapped page: at each level from the
    /// root down, the table for the page is in the arena, and its entry for
    /// the page holds the physical address of the frame one level below,
    /// with the flags of a link above level one, and with the flags for the
    /// permissions of the page at level one. The root is frame 0.
    pub proof fn lemma_walk(&self, page: int, level: int)
        requires
            self.wf(),
            self@.pages.dom().contains(page),
            1 <= level <= 4,
        ensures
            self.node_at(level, page / span(level)) matches Some(table) && self.node_at(
                level - 1,
                page / span(level - 1),
            ) matches Some(below) && {
                &&& 0 <= table < self.frame_total()
                &&& 0 <= below < self.frame_total()
                &&& level == 4 ==> table == 0
                &&& level == 1 ==> self.frame_of(page) == Some(below)
                &&& self.arena()[table] is Table
                &&& self.arena()[table].level() == level
                &&& self.arena()[table].entries()[slot_of(page, level)] == ((self.root() + 4096
                    * below) as u64) | (if level > 1 {
                    link_flags()
                } else {
                    page_flags(self@.pages[page].writable, self@.pages[page].executable)
                })
            },
    {
        self.lemma_node(0, page);
        lemma_path(page);
        self.allocator.lemma_bounds();
        self.lemma_node(1, page / span(1));
        self.lemma_node(2, page / span(2));
        self.lemma_node(3, page / span(3));
        self.lemma_node(4, 0);
        assert(self.node_at(0, page) is Some);
        assert(self.node_at(1, page / span(1)) is Some);
        assert(self.node_at(2, page / span(2)) is Some);
        assert(self.node_at(3, page / span(3)) is Some);
        assert(self.node_at(4, 0) == Some(0int));
        assert(page / span(4) == 0);
        let table = self.node_at(level, page / span(level)).unwrap();
        assert(self.frame_wf(table));
        assert(self.entry_wf(table, slot_of(page, level)));
    }

    /// Number of frames in the arena.
    pub fn frame_count(&self) -> (count: usize)
        ensures
            count == self.frame_total(),
    {
        self.frames.len()
    }

    /// The frame at an index of the arena.
    pub fn frame_at(&self, index: usize) -> (frame: &Frame)
        requires
            index < self.frame_total(),
        ensures
            *frame == self.arena()[index as int],
    {
        &self.frames[index]
    }

    /// Physical address of the frame at an index of the arena.
    pub fn physical_address(&self, index: usize) -> (address: u64)
        requires
            self.wf(),
            index < self.frame_total(),
        ensures
            address == self.root() + 4096 * index,
    {
        proof {
            self.allocator.lemma_bounds();
        }
        self.base + (index as u64) * PAGE_SIZE
    }

    /// The physical address that a virtual address resolves to: the frame of
    /// its page, and in it the offset of the address. There is none if the
    /// address is not canonical or its page is not mapped.
    pub fn translate(&self, address: u64) -> (result: Option<u64>)
        requires
            self.wf(),
        ensures
            result is Some <==> canonical(address) && self@.pages.dom().contains(page_of(address)),
            result matches Some(physical) ==> self.frame_of(page_of(address)) matches Some(index)
                && physical == self.root() + 4096 * index + address % 4096,
    {
        if !is_canonical(address) {
            return None;
        }
        let page = (address % LINEAR_LIMIT) / PAGE_SIZE;
        match self.lookup(page) {
            Some(index) => {
                proof {
                    self.allocator.lemma_bounds();
                }
                Some(self.base + (index as u64) * PAGE_SIZE + address % PAGE_SIZE)
            },
            None => None,
        }
    }

    /// The byte that the kernel finds at a virtual address. There is none if
    /// the address is not canonical or its page is not mapped.
    pub fn read(&self, address: u64) -> (result: Option<u8>)
        requires
            self.wf(),
        ensures
            result is Some <==> canonical(address) && self@.pages.dom().contains(page_of(address)),
            result matches Some(byte) ==> byte == self@.pages[page_of(address)].bytes[address as int
                % 4096],
    {
        if !is_canonical(address) {
            return None;
        }
        let page = (address % LINEAR_LIMIT) / PAGE_SIZE;
        match self.lookup(page) {
            Some(index) => {
                proof {
                    self.lemma_node(0, page as int);
                    assert(self.frame_wf(index as int));
                }
                match &self.frames[index] {
                    Frame::Page { bytes, .. } => Some(bytes[(address % PAGE_SIZE) as usize]),
                    Frame::Table { .. } => None,
                }
            },
            None => None,
        }
    }

    /// What the kernel may do at a virtual address. Every mapped page can be
    /// read. There is no answer if the address is not canonical or its page
    /// is not mapped.
    pub fn permissions(&self, address: u64) -> (result: Option<Permissions>)
        requires
            self.wf(),
        ensures
            result is Some <==> canonical(address) && self@.pages.dom().contains(page_of(address)),
            result matches Some(permissions) ==> {
                &&& permissions.readable
                &&& permissions.writable == self@.pages[page_of(address)].writable
                &&& permissions.executable == self@.pages[page_of(address)].executable
            },
    {
        if !is_canonical(address) {
            return None;
        }
        let page = (address % LINEAR_LIMIT) / PAGE_SIZE;
        match self.held(page) {
            Some((writable, executable)) => Some(
                Permissions { readable: true, writable, executable },
            ),
            None => None,
        }
    }

    /// Arena index of the frame that holds the page, if it is mapped.
    pub(crate) fn lookup(&self, page: u64) -> (result: Option<usize>)
        requires
            self.wf(),
            page < PAGE_COUNT,
        ensures
            match result {
                Some(index) => {
                    &&& self.frame_of(page as int) == Some(index as int)
                    &&& index < self.frame_total()
                    &&& self@.pages.dom().contains(page as int)
                },
                None => {
                    &&& self.frame_of(page as int) is None
                    &&& !self@.pages.dom().contains(page as int)
                },
            },
    {
        let address = page * PAGE_SIZE;
        proof {
            let p = page as int;
            lemma_path(p);
            self.lemma_node(3, p / span(3));
            self.lemma_node(2, p / span(2));
            self.lemma_node(1, p / span(1));
            self.lemma_node(0, p);
            assert(self.node_at(4, 0) == Some(0int));
            assert(address as int / 4096 == p);
        }
        let third = match self.child(0, table_index(address, Level::Four)) {
            Some(index) => index,
            None => {
                return None;
            },
        };
        let second = match self.child(third, table_index(address, Level::Three)) {
            Some(index) => index,
            None => {
                return None;
            },
        };
        let first = match self.child(second, table_index(address, Level::Two)) {
            Some(index) => index,
            None => {
                return None;
            },
        };
        self.child(first, table_index(address, Level::One))
    }
}

} // verus!
