//! The kernel image: its loadable segments and its entry point.

use vstd::prelude::*;
use xmas_elf::header::MAGIC;
use xmas_elf::program::Flags;
use crate::address::{
    canonical, is_canonical, linear, LINEAR_LIMIT, LOWER_HALF_END, PAGE_SIZE,
};
use crate::error::LoadError;

verus! {

/// What the kernel may do with the memory of a segment.
#[derive(Clone, Copy, Debug, PartialEq, Eq, Structural)]
pub struct Permissions {
    pub readable: bool,
    pub writable: bool,
    pub executable: bool,
}

/// A part of the image that has to be in memory, at its virtual address and
/// with its permissions, before the kernel runs.
#[derive(Clone, Copy, Debug, PartialEq, Eq, Structural)]
pub struct Segment {
    /// Address at which the kernel expects the first byte.
    pub virtual_address: u64,
    /// Where the bytes of the segment start in the image.
    pub file_offset: u64,
    /// Number of bytes that come from the image.
    pub physical_size: u64,
    /// Number of bytes in memory; those beyond `physical_size` are zero.
    pub memory_size: u64,
    pub permissions: Permissions,
}

/// What the loader needs to know of a kernel image.
#[derive(Clone, Debug)]
pub struct KernelImage {
    /// Address of the first instruction of the kernel.
    pub entry_point: u64,
    /// The loadable segments that are not empty, in the order of the image.
    pub segments: Vec<Segment>,
}

impl Segment {
    /// The segment is not empty, the image holds no more bytes of it than it
    /// has in memory, and its addresses are canonical and lie in one half of
    /// the address space.
    pub open spec fn well_formed(self) -> bool {
        &&& self.memory_size >= 1
        &&& self.physical_size <= self.memory_size
        &&& self.virtual_address + self.memory_size - 1 <= u64::MAX
        &&& canonical(self.virtual_address)
        &&& self.virtual_address < LOWER_HALF_END ==> self.virtual_address + self.memory_size
            <= LOWER_HALF_END
    }

    /// The bytes of the segment lie within an image of the given length.
    pub open spec fn fits(self, image_len: int) -> bool {
        self.file_offset + self.physical_size <= image_len
    }

    /// Position of the first byte within the 48-bit address space.
    pub open spec fn start(self) -> int {
        linear(self.virtual_address)
    }

    /// Position just after the last byte within the 48-bit address space.
    pub open spec fn end(self) -> int {
        self.start() + self.memory_size
    }

    /// Number of the first page that holds a byte of the segment.
    pub open spec fn first_page(self) -> int {
        self.start() / 4096
    }

    /// Number of the last page that holds a byte of the segment.
    pub open spec fn last_page(self) -> int {
        (self.end() - 1) / 4096
    }

    /// Whether the byte at the position belongs to the segment.
    pub open spec fn covers(self, position: int) -> bool {
        self.start() <= position < self.end()
    }

    /// The byte that the segment puts at a position it covers: the byte of
    /// the image, or zero beyond what the image holds.
    pub open spec fn byte_at(self, image: Seq<u8>, position: int) -> u8 {
        let offset = position - self.start();
        if offset < self.physical_size {
            image[self.file_offset + offset]
        } else {
            0
        }
    }

    /// The contents of a page once the segment has been written over `before`.
    pub open spec fn bytes_after(self, image: Seq<u8>, page: int, before: Seq<u8>) -> Seq<u8> {
        Seq::new(
            4096,
            |k: int|
                if self.covers(page * 4096 + k) {
                    self.byte_at(image, page * 4096 + k)
                } else {
                    before[k]
                },
        )
    }

    /// An address within a well-formed segment is a position that the segment covers.
    pub proof fn lemma_covers(self, address: u64)
        requires
            self.well_formed(),
            self.virtual_address <= address < self.virtual_address + self.memory_size,
        ensures
            self.covers(linear(address)),
    {
    }

    /// What a well-formed segment's positions obey.
    pub proof fn lemma_range(self)
        requires
            self.well_formed(),
        ensures
            0 <= self.start() < self.end() <= LINEAR_LIMIT,
            0 <= self.first_page() <= self.last_page() < 0x10_0000_0000,
    {
    }

    /// Whether the segment is well formed and lies within an image of the given length.
    pub fn check(&self, image_len: usize) -> (accepted: bool)
        ensures
            accepted == (self.well_formed() && self.fits(image_len as int)),
    {
        if self.memory_size < 1 || self.physical_size > self.memory_size {
            return false;
        }
        let last = match self.virtual_address.checked_add(self.memory_size - 1) {
            Some(last) => last,
            None => {
                return false;
            },
        };
        if !is_canonical(self.virtual_address) || !is_canonical(last) {
            return false;
        }
        if (self.virtual_address < LOWER_HALF_END) != (last < LOWER_HALF_END) {
            return false;
        }
        match self.file_offset.checked_add(self.physical_size) {
            Some(end) => end <= image_len as u64,
            None => false,
        }
    }

    /// Position of the first byte within the 48-bit address space.
    pub fn start_position(&self) -> (position: u64)
        ensures
            position == self.start(),
    {
        self.virtual_address % LINEAR_LIMIT
    }

    /// Number of the first page that holds a byte of the segment.
    pub fn first_page_number(&self) -> (page: u64)
        ensures
            page == self.first_page(),
    {
        self.start_position() / PAGE_SIZE
    }

    /// Number of the last page that holds a byte of the segment.
    pub fn last_page_number(&self) -> (page: u64)
        requires
            self.well_formed(),
        ensures
            page == self.last_page(),
    {
        proof {
            self.lemma_range();
        }
        (self.start_position() + (self.memory_size - 1)) / PAGE_SIZE
    }
}

/// Length of the header of a 64-bit image.
pub const HEADER_SIZE: usize = 64;

/// Length of what the loader reads of one entry of the segment table.
pub const ENTRY_SIZE: usize = 56;

/// Type of a segment that has to be loaded.
pub const LOADABLE: u32 = 1;

/// The two bytes at `at`, read as a little-endian number.
pub open spec fn u16_at(bytes: Seq<u8>, at: int) -> int {
    bytes[at] as int + 256 * (bytes[at + 1] as int)
}

/// The four bytes at `at`, read as a little-endian number.
pub open spec fn u32_at(bytes: Seq<u8>, at: int) -> int {
    u16_at(bytes, at) + 65536 * u16_at(bytes, at + 2)
}

/// The eight bytes at `at`, read as a little-endian number.
pub open spec fn u64_at(bytes: Seq<u8>, at: int) -> int {
    u32_at(bytes, at) + 4294967296 * u32_at(bytes, at + 4)
}

/// Eight bytes make a number below 2 to the power of 64.
pub proof fn lemma_u64_at_bounds(bytes: Seq<u8>, at: int)
    ensures
        0 <= u64_at(bytes, at) <= u64::MAX,
{
}

/// Address of the first instruction, as the header gives it.
pub open spec fn entry_point(bytes: Seq<u8>) -> int {
    u64_at(bytes, 24)
}

/// Where the segment table starts in the image.
pub open spec fn table_offset(bytes: Seq<u8>) -> int {
    u64_at(bytes, 32)
}

/// Length of one entry of the segment table.
pub open spec fn entry_size(bytes: Seq<u8>) -> int {
    u16_at(bytes, 54)
}

/// Number of entries of the segment table.
pub open spec fn entry_count(bytes: Seq<u8>) -> int {
    u16_at(bytes, 56)
}

/// The header is all there, starts with the magic number, announces a
/// 64-bit little-endian image, and its segment table lies within the image
/// with entries long enough to read.
pub open spec fn header_valid(bytes: Seq<u8>) -> bool {
    &&& bytes.len() >= 64
    &&& bytes[0] == 0x7f
    &&& bytes[1] == 0x45
    &&& bytes[2] == 0x4c
    &&& bytes[3] == 0x46
    &&& bytes[4] == 2
    &&& bytes[5] == 1
    &&& entry_count(bytes) > 0 ==> {
        &&& entry_size(bytes) >= 56
        &&& table_offset(bytes) + entry_count(bytes) * entry_size(bytes) <= bytes.len()
    }
}

/// Where the entry `index` of the segment table starts in the image.
pub open spec fn entry_at(bytes: Seq<u8>, index: int) -> int {
    table_offset(bytes) + index * entry_size(bytes)
}

/// The permissions that the flags of a segment stand for.
pub open spec fn permissions_of(flags: u32) -> Permissions {
    Permissions {
        readable: flags & 0x4 == 0x4,
        writable: flags & 0x2 == 0x2,
        executable: flags & 0x1 == 0x1,
    }
}

/// Whether the entry `index` describes a segment that has to be loaded and
/// is not empty.
pub open spec fn loadable(bytes: Seq<u8>, index: int) -> bool {
    u32_at(bytes, entry_at(bytes, index)) == 1 && u64_at(bytes, entry_at(bytes, index) + 40) > 0
}

/// The segment that the entry `index` describes.
pub open spec fn segment_at(bytes: Seq<u8>, index: int) -> Segment {
    let at = entry_at(bytes, index);
    Segment {
        virtual_address: u64_at(bytes, at + 16) as u64,
        file_offset: u64_at(bytes, at + 8) as u64,
        physical_size: u64_at(bytes, at + 32) as u64,
        memory_size: u64_at(bytes, at + 40) as u64,
        permissions: permissions_of(u32_at(bytes, at + 4) as u32),
    }
}

/// The segments to load among the first `count` entries, in their order.
pub open spec fn segments_among(bytes: Seq<u8>, count: int) -> Seq<Segment>
    decreases count,
{
    if count <= 0 {
        Seq::empty()
    } else if loadable(bytes, count - 1) {
        segments_among(bytes, count - 1).push(segment_at(bytes, count - 1))
    } else {
        segments_among(bytes, count - 1)
    }
}

/// Whether every segment to load among the first `count` entries is well
/// formed and lies within the image.
pub open spec fn segments_sound(bytes: Seq<u8>, count: int) -> bool {
    forall|index: int|
        0 <= index < count && #[trigger] loadable(bytes, index) ==> segment_at(
            bytes,
            index,
        ).well_formed() && segment_at(bytes, index).fits(bytes.len() as int)
}

/// Whether the segment holds the address and may be executed.
pub open spec fn executable_at(segment: Segment, address: int) -> bool {
    &&& segment.permissions.executable
    &&& segment.virtual_address <= address < segment.virtual_address + segment.memory_size
}

/// Whether the entry point lies in an executable segment among the first
/// `count` entries.
pub open spec fn entry_reachable(bytes: Seq<u8>, count: int) -> bool {
    exists|index: int|
        0 <= index < count && #[trigger] loadable(bytes, index) && executable_at(
            segment_at(bytes, index),
            entry_point(bytes),
        )
}

/// Why the bytes are no kernel image that can be loaded, if they are not.
pub open spec fn parse_refusal(bytes: Seq<u8>) -> Option<LoadError> {
    if !header_valid(bytes) || !segments_sound(bytes, entry_count(bytes)) {
        Some(LoadError::MalformedImage)
    } else if !entry_reachable(bytes, entry_count(bytes)) {
        Some(LoadError::EntryUnreachable)
    } else {
        None
    }
}

/// `xmas_elf::header::MAGIC`: the four bytes that every image starts with.
#[verifier::external_body]
fn magic() -> (bytes: [u8; 4])
    ensures
        bytes@ == seq![0x7fu8, 0x45u8, 0x4cu8, 0x46u8],
{
    MAGIC
}

/// `Flags::is_read`: whether the read bit of the segment flags is set.
#[verifier::external_body]
fn flag_read(flags: u32) -> (set: bool)
    ensures
        set == (flags & 0x4 == 0x4),
{
    Flags(flags).is_read()
}

/// `Flags::is_write`: whether the write bit of the segment flags is set.
#[verifier::external_body]
fn flag_write(flags: u32) -> (set: bool)
    ensures
        set == (flags & 0x2 == 0x2),
{
    Flags(flags).is_write()
}

/// `Flags::is_execute`: whether the execute bit of the segment flags is set.
#[verifier::external_body]
fn flag_execute(flags: u32) -> (set: bool)
    ensures
        set == (flags & 0x1 == 0x1),
{
    Flags(flags).is_execute()
}

fn read_u16(bytes: &[u8], at: usize) -> (value: u16)
    requires
        at + 2 <= bytes@.len() <= usize::MAX,
    ensures
        value == u16_at(bytes@, at as int),
{
    bytes[at] as u16 + 256 * (bytes[at + 1] as u16)
}

fn read_u32(bytes: &[u8], at: usize) -> (value: u32)
    requires
        at + 4 <= bytes@.len() <= usize::MAX,
    ensures
        value == u32_at(bytes@, at as int),
{
    read_u16(bytes, at) as u32 + 65536 * (read_u16(bytes, at + 2) as u32)
}

fn read_u64(bytes: &[u8], at: usize) -> (value: u64)
    requires
        at + 8 <= bytes@.len() <= usize::MAX,
    ensures
        value == u64_at(bytes@, at as int),
{
    read_u32(bytes, at) as u64 + 4294967296 * (read_u32(bytes, at + 4) as u64)
}

/// Number of pages to set aside for reading a file of the given size: one
/// more than the whole pages it fills.
pub fn buffer_pages(file_size: u64) -> (pages: u64)
    ensures
        pages == file_size / 4096 + 1,
{
    file_size / PAGE_SIZE + 1
}

/// Reads the header and the segment table of a kernel image. The image is
/// accepted if its header is valid, every segment to load is well formed and
/// within the image, and the entry point lies in an executable segment.
pub fn parse(bytes: &[u8]) -> (result: Result<KernelImage, LoadError>)
    ensures
        match result {
            Ok(image) => {
                &&& parse_refusal(bytes@) is None
                &&& image.entry_point == entry_point(bytes@)
                &&& image.segments@ == segments_among(bytes@, entry_count(bytes@))
            },
            Err(error) => parse_refusal(bytes@) == Some(error),
        },
{
    let length = bytes.len();
    if length < HEADER_SIZE {
        return Err(LoadError::MalformedImage);
    }
    let expected = magic();
    if bytes[0] != expected[0] || bytes[1] != expected[1] || bytes[2] != expected[2] || bytes[3]
        != expected[3] || bytes[4] != 2 || bytes[5] != 1 {
        return Err(LoadError::MalformedImage);
    }
    let entry = read_u64(bytes, 24);
    let table = read_u64(bytes, 32);
    let size = read_u16(bytes, 54);
    let count = read_u16(bytes, 56);
    if count > 0 {
        if (size as usize) < ENTRY_SIZE {
            return Err(LoadError::MalformedImage);
        }
        assert(count as int * size as int <= 65535 * 65535) by (nonlinear_arith)
            requires
                count <= 65535,
                size <= 65535,
        ;
        let extent = count as u64 * size as u64;
        match table.checked_add(extent) {
            Some(end) => {
                if end > length as u64 {
                    return Err(LoadError::MalformedImage);
                }
            },
            None => {
                return Err(LoadError::MalformedImage);
            },
        }
    }
    let mut segments: Vec<Segment> = Vec::new();
    let mut reachable = false;
    let mut index: u16 = 0;
    while index < count
        invariant
            length == bytes@.len(),
            header_valid(bytes@),
            entry == entry_point(bytes@),
            table == table_offset(bytes@),
            size == entry_size(bytes@),
            count == entry_count(bytes@),
            index <= count,
            segments@ == segments_among(bytes@, index as int),
            segments_sound(bytes@, index as int),
            reachable == entry_reachable(bytes@, index as int),
        decreases count - index,
    {
        assert(index as int * size as int + 56 <= count as int * size as int) by (nonlinear_arith)
            requires
                index < count,
                size >= 56,
        ;
        let at = table as usize + index as usize * size as usize;
        let ghost sound_before = segments_sound(bytes@, index as int);
        if read_u32(bytes, at) == LOADABLE && read_u64(bytes, at + 40) > 0 {
            let flags = read_u32(bytes, at + 4);
            let segment = Segment {
                virtual_address: read_u64(bytes, at + 16),
                file_offset: read_u64(bytes, at + 8),
                physical_size: read_u64(bytes, at + 32),
                memory_size: read_u64(bytes, at + 40),
                permissions: Permissions {
                    readable: flag_read(flags),
                    writable: flag_write(flags),
                    executable: flag_execute(flags),
                },
            };
            assert(segment == segment_at(bytes@, index as int));
            if !segment.check(length) {
                assert(loadable(bytes@, index as int));
                return Err(LoadError::MalformedImage);
            }
            if segment.permissions.executable && segment.virtual_address <= entry && entry
                - segment.virtual_address < segment.memory_size {
                reachable = true;
            }
            segments.push(segment);
        }
        proof {
            let next = index as int + 1;
            if entry_reachable(bytes@, next) {
                let witness = choose|i: int|
                    0 <= i < next && #[trigger] loadable(bytes@, i) && executable_at(
                        segment_at(bytes@, i),
                        entry_point(bytes@),
                    );
                if witness < index {
                    assert(entry_reachable(bytes@, index as int));
                }
            }
            if reachable && !entry_reachable(bytes@, index as int) {
                assert(loadable(bytes@, index as int) && executable_at(
                    segment_at(bytes@, index as int),
                    entry_point(bytes@),
                ));
            }
        }
        index = index + 1;
    }
    if !reachable {
        return Err(LoadError::EntryUnreachable);
    }
    Ok(KernelImage { entry_point: entry, segments })
}

} // verus!
