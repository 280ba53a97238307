use bootloader::error::LoadError;
use bootloader::frame::FrameAllocator;
use bootloader::image::{buffer_pages, parse, KernelImage, Permissions, Segment};
use bootloader::mapper::frame_budget;
use bootloader::registers::{ControlRegisters, WriteWindow};
use bootloader::space::{AddressSpace, Frame};
use x86_64::structures::paging::page_table::PageTableFlags;

const LOAD: u32 = 1;
const NOTE: u32 = 4;
const R: u32 = 4;
const W: u32 = 2;
const X: u32 = 1;

struct Entry {
    kind: u32,
    flags: u32,
    offset: u64,
    address: u64,
    file_size: u64,
    memory_size: u64,
}

fn entry(
    kind: u32,
    flags: u32,
    offset: u64,
    address: u64,
    file_size: u64,
    memory_size: u64,
) -> Entry {
    Entry { kind, flags, offset, address, file_size, memory_size }
}

/// A 64-bit little-endian image: header, segment table, then `payload` from
/// offset 0x1000 on.
fn image(entry_point: u64, entries: &[Entry], payload: &[u8]) -> Vec<u8> {
    let mut bytes = vec![0u8; 0x1000];
    bytes[0..4].copy_from_slice(&[0x7f, b'E', b'L', b'F']);
    bytes[4] = 2;
    bytes[5] = 1;
    bytes[6] = 1;
    bytes[16..18].copy_from_slice(&2u16.to_le_bytes());
    bytes[18..20].copy_from_slice(&62u16.to_le_bytes());
    bytes[20..24].copy_from_slice(&1u32.to_le_bytes());
    bytes[24..32].copy_from_slice(&entry_point.to_le_bytes());
    bytes[32..40].copy_from_slice(&64u64.to_le_bytes());
    bytes[52..54].copy_from_slice(&64u16.to_le_bytes());
    bytes[54..56].copy_from_slice(&56u16.to_le_bytes());
    bytes[56..58].copy_from_slice(&(entries.len() as u16).to_le_bytes());
    for (index, entry) in entries.iter().enumerate() {
        let at = 64 + 56 * index;
        bytes[at..at + 4].copy_from_slice(&entry.kind.to_le_bytes());
        bytes[at + 4..at + 8].copy_from_slice(&entry.flags.to_le_bytes());
        bytes[at + 8..at + 16].copy_from_slice(&entry.offset.to_le_bytes());
        bytes[at + 16..at + 24].copy_from_slice(&entry.address.to_le_bytes());
        bytes[at + 24..at + 32].copy_from_slice(&entry.address.to_le_bytes());
        bytes[at + 32..at + 40].copy_from_slice(&entry.file_size.to_le_bytes());
        bytes[at + 40..at + 48].copy_from_slice(&entry.memory_size.to_le_bytes());
        bytes[at + 48..at + 56].copy_from_slice(&0x1000u64.to_le_bytes());
    }
    bytes.extend_from_slice(payload);
    bytes
}

fn payload(pages: usize) -> Vec<u8> {
    (0..pages * 0x1000).map(|index| (index % 251) as u8 + 1).collect()
}

/// The image of the scenario: a read-execute page at 0x200000 and a
/// read-write page at 0x201000.
fn two_segment_image() -> Vec<u8> {
    image(
        0x200010,
        &[
            entry(LOAD, R | X, 0x1000, 0x200000, 0x1000, 0x1000),
            entry(LOAD, R | W, 0x2000, 0x201000, 0x1000, 0x1000),
        ],
        &payload(2),
    )
}

fn space_with(frames: u64) -> AddressSpace {
    AddressSpace::new(FrameAllocator::new(0x100_0000, frames)).unwrap()
}

fn window() -> WriteWindow {
    WriteWindow::open(ControlRegisters { cr0: 0x8001_0033, cr3: 0x7f00_0000 })
}

fn segment(address: u64, offset: u64, file_size: u64, memory_size: u64, flags: u32) -> Segment {
    Segment {
        virtual_address: address,
        file_offset: offset,
        physical_size: file_size,
        memory_size,
        permissions: Permissions {
            readable: flags & R != 0,
            writable: flags & W != 0,
            executable: flags & X != 0,
        },
    }
}

fn parsed(bytes: &[u8]) -> KernelImage {
    parse(bytes).unwrap()
}

#[test]
fn parse_gives_entry_point_and_segments() {
    let bytes = two_segment_image();
    let image = parsed(&bytes);
    assert_eq!(image.entry_point, 0x200010);
    assert_eq!(
        image.segments,
        vec![
            segment(0x200000, 0x1000, 0x1000, 0x1000, R | X),
            segment(0x201000, 0x2000, 0x1000, 0x1000, R | W),
        ]
    );
}

#[test]
fn parse_reads_each_permission_flag() {
    for flags in 0..8u32 {
        let bytes = image(
            0x200000,
            &[
                entry(LOAD, R | X, 0x1000, 0x200000, 0x1000, 0x1000),
                entry(LOAD, flags, 0x2000, 0x300000, 0x1000, 0x1000),
            ],
            &payload(2),
        );
        let image = parsed(&bytes);
        assert_eq!(
            image.segments[1].permissions,
            Permissions {
                readable: flags & R != 0,
                writable: flags & W != 0,
                executable: flags & X != 0,
            }
        );
    }
}

#[test]
fn parse_agrees_with_xmas_elf() {
    let bytes = image(
        0xffff_ffff_8000_0123,
        &[
            entry(NOTE, R, 0x1000, 0, 0x20, 0x20),
            entry(LOAD, R | X, 0x1000, 0xffff_ffff_8000_0000, 0x1800, 0x1800),
            entry(LOAD, R | W, 0x2800, 0xffff_ffff_8000_2800, 0x100, 0x4000),
        ],
        &payload(2),
    );
    let image = parsed(&bytes);
    let elf = xmas_elf::ElfFile::new(&bytes).unwrap();
    assert_eq!(image.entry_point, elf.header.pt2.entry_point());
    let loadable: Vec<_> = elf
        .program_iter()
        .filter(|header| header.get_type() == Ok(xmas_elf::program::Type::Load))
        .collect();
    assert_eq!(image.segments.len(), loadable.len());
    for (segment, header) in image.segments.iter().zip(loadable.iter()) {
        assert_eq!(segment.virtual_address, header.virtual_addr());
        assert_eq!(segment.file_offset, header.offset());
        assert_eq!(segment.physical_size, header.file_size());
        assert_eq!(segment.memory_size, header.mem_size());
        assert_eq!(segment.permissions.readable, header.flags().is_read());
        assert_eq!(segment.permissions.writable, header.flags().is_write());
        assert_eq!(segment.permissions.executable, header.flags().is_execute());
    }
}

#[test]
fn parse_skips_empty_and_other_segments() {
    let bytes = image(
        0x200000,
        &[
            entry(NOTE, R, 0x1000, 0x100000, 0x10, 0x10),
            entry(LOAD, R | W, 0x1000, 0x300000, 0, 0),
            entry(LOAD, R | X, 0x1000, 0x200000, 0x1000, 0x1000),
            entry(6, R, 0xffff_ffff, 0x1234, 0xffff_ffff_ffff, 1),
        ],
        &payload(1),
    );
    let image = parsed(&bytes);
    assert_eq!(image.segments, vec![segment(0x200000, 0x1000, 0x1000, 0x1000, R | X)]);
}

#[test]
fn corrupted_magic_is_malformed() {
    for position in 0..4 {
        let mut bytes = two_segment_image();
        bytes[position] ^= 0x20;
        assert_eq!(parse(&bytes).unwrap_err(), LoadError::MalformedImage);
    }
}

#[test]
fn short_or_foreign_header_is_malformed() {
    let bytes = two_segment_image();
    assert_eq!(parse(&bytes[..63]).unwrap_err(), LoadError::MalformedImage);
    assert_eq!(parse(&[]).unwrap_err(), LoadError::MalformedImage);
    let mut narrow = bytes.clone();
    narrow[4] = 1;
    assert_eq!(parse(&narrow).unwrap_err(), LoadError::MalformedImage);
    let mut big_endian = bytes.clone();
    big_endian[5] = 2;
    assert_eq!(parse(&big_endian).unwrap_err(), LoadError::MalformedImage);
}

#[test]
fn segment_table_outside_the_image_is_malformed() {
    let mut bytes = two_segment_image();
    let length = bytes.len() as u64;
    bytes[32..40].copy_from_slice(&(length - 111).to_le_bytes());
    assert_eq!(parse(&bytes).unwrap_err(), LoadError::MalformedImage);
    let mut wrapped = two_segment_image();
    wrapped[32..40].copy_from_slice(&u64::MAX.to_le_bytes());
    assert_eq!(parse(&wrapped).unwrap_err(), LoadError::MalformedImage);
    let mut short_entries = two_segment_image();
    short_entries[54..56].copy_from_slice(&55u16.to_le_bytes());
    assert_eq!(parse(&short_entries).unwrap_err(), LoadError::MalformedImage);
}

#[test]
fn inconsistent_segment_is_malformed() {
    let code =
        |file_size, memory_size| entry(LOAD, R | X, 0x1000, 0x200000, file_size, memory_size);
    let beyond = image(0x200000, &[code(0x1001, 0x2000)], &payload(1));
    assert_eq!(parse(&beyond).unwrap_err(), LoadError::MalformedImage);
    let shrinking = image(0x200000, &[code(0x1000, 0xfff)], &payload(1));
    assert_eq!(parse(&shrinking).unwrap_err(), LoadError::MalformedImage);
    let hole = image(
        0x8000_0000_0000,
        &[entry(LOAD, R | X, 0x1000, 0x8000_0000_0000, 0x1000, 0x1000)],
        &payload(1),
    );
    assert_eq!(parse(&hole).unwrap_err(), LoadError::MalformedImage);
    let straddling = image(
        0x7fff_ffff_f000,
        &[entry(LOAD, R | X, 0x1000, 0x7fff_ffff_f000, 0x1000, 0x1001)],
        &payload(1),
    );
    assert_eq!(parse(&straddling).unwrap_err(), LoadError::MalformedImage);
    let wrapping = image(
        0xffff_ffff_ffff_f000,
        &[entry(LOAD, R | X, 0x1000, 0xffff_ffff_ffff_f000, 0x1000, 0x1001)],
        &payload(1),
    );
    assert_eq!(parse(&wrapping).unwrap_err(), LoadError::MalformedImage);
}

#[test]
fn last_page_of_each_half_is_accepted() {
    let low = image(
        0x7fff_ffff_f000,
        &[entry(LOAD, R | X, 0x1000, 0x7fff_ffff_f000, 0x1000, 0x1000)],
        &payload(1),
    );
    assert!(parse(&low).is_ok());
    let high = image(
        0xffff_ffff_ffff_f000,
        &[entry(LOAD, R | X, 0x1000, 0xffff_ffff_ffff_f000, 0x1000, 0x1000)],
        &payload(1),
    );
    assert!(parse(&high).is_ok());
}

#[test]
fn entry_point_outside_executable_segments_is_unreachable() {
    let in_data = image(
        0x201000,
        &[
            entry(LOAD, R | X, 0x1000, 0x200000, 0x1000, 0x1000),
            entry(LOAD, R | W, 0x2000, 0x201000, 0x1000, 0x1000),
        ],
        &payload(2),
    );
    assert_eq!(parse(&in_data).unwrap_err(), LoadError::EntryUnreachable);
    let code = || entry(LOAD, R | X, 0x1000, 0x200000, 0x1000, 0x2000);
    let nowhere = image(0x202000, &[code()], &payload(1));
    assert_eq!(parse(&nowhere).unwrap_err(), LoadError::EntryUnreachable);
    let no_segments = image(0x200000, &[], &[]);
    assert_eq!(parse(&no_segments).unwrap_err(), LoadError::EntryUnreachable);
    let last_byte = image(0x201fff, &[code()], &payload(1));
    assert!(parse(&last_byte).is_ok());
}

#[test]
fn buffer_pages_is_one_more_than_the_whole_pages() {
    assert_eq!(buffer_pages(0), 1);
    assert_eq!(buffer_pages(4095), 1);
    assert_eq!(buffer_pages(4096), 2);
    assert_eq!(buffer_pages(0x12345), 0x13);
}

#[test]
fn two_segment_image_is_mapped_with_its_bytes_and_permissions() {
    let bytes = two_segment_image();
    let image = parsed(&bytes);
    let mut space = space_with(16);
    assert_eq!(window().map_image(&mut space, &image, &bytes), Ok(()));
    for offset in [0u64, 1, 0x10, 0x7ff, 0xfff] {
        assert_eq!(space.read(0x200000 + offset), Some(bytes[0x1000 + offset as usize]));
        assert_eq!(space.read(0x201000 + offset), Some(bytes[0x2000 + offset as usize]));
    }
    assert_eq!(
        space.permissions(0x200000),
        Some(Permissions { readable: true, writable: false, executable: true })
    );
    assert_eq!(
        space.permissions(0x201fff),
        Some(Permissions { readable: true, writable: true, executable: false })
    );
    assert_eq!(space.read(0x1fffff), None);
    assert_eq!(space.read(0x202000), None);
    assert_eq!(space.permissions(0x202000), None);
    assert_eq!(space.translate(0x202000), None);
}

#[test]
fn mapping_takes_one_frame_for_each_page_and_table() {
    let bytes = two_segment_image();
    let image = parsed(&bytes);
    let mut space = space_with(16);
    assert_eq!(space.frame_count(), 1);
    assert_eq!(space.free_frames(), 15);
    window().map_image(&mut space, &image, &bytes).unwrap();
    assert_eq!(space.frame_count(), 6);
    assert_eq!(space.free_frames(), 10);
    assert_eq!(space.root_address(), 0x100_0000);
    assert_eq!(space.translate(0x200000), Some(0x100_4000));
    assert_eq!(space.translate(0x200abc), Some(0x100_4abc));
    assert_eq!(space.translate(0x201001), Some(0x100_5001));
    assert_eq!(space.physical_address(5), 0x100_5000);
}

#[test]
fn frames_run_out_on_the_sixth_allocation() {
    let bytes = two_segment_image();
    let image = parsed(&bytes);
    for frames in 1..6 {
        let mut space = space_with(frames);
        assert_eq!(
            window().map_image(&mut space, &image, &bytes),
            Err(LoadError::ResourceExhaustion)
        );
        assert_eq!(space.free_frames(), 0);
        assert_eq!(space.read(0x201000), None);
    }
    let mut space = space_with(6);
    assert_eq!(window().map_image(&mut space, &image, &bytes), Ok(()));
    assert_eq!(space.free_frames(), 0);
}

#[test]
fn frame_budget_is_enough_for_any_layout() {
    let bytes = two_segment_image();
    let image = parsed(&bytes);
    assert_eq!(frame_budget(&image), 1 + 2 * (3 + 2 + 2 + 2));
    let mut space = space_with(frame_budget(&image));
    assert_eq!(window().map_image(&mut space, &image, &bytes), Ok(()));
    let scattered = KernelImage {
        entry_point: 0,
        segments: vec![
            segment(0x1f_ffff, 0, 2, 2, R),
            segment(0x7f_ffff_ffff, 0, 2, 2, R),
            segment(0xffff_ff7f_ffff_ffff, 0, 2, 2, R),
        ],
    };
    assert_eq!(frame_budget(&scattered), 1 + 3 * (2 + 2 + 2 + 2));
    let mut space = space_with(frame_budget(&scattered));
    assert_eq!(window().map_image(&mut space, &scattered, &bytes), Ok(()));
    assert_eq!(space.frame_count(), 1 + 6 + 7 + 8);
    let large = KernelImage {
        entry_point: 0,
        segments: vec![segment(0x200000, 0, 0, 0x4000_0000, R), segment(0, 0, 0, 0xfff, R)],
    };
    assert_eq!(frame_budget(&large), 1 + (0x40002 + 0x202 + 3 + 2) + (2 + 2 + 2 + 2));
    assert_eq!(frame_budget(&KernelImage { entry_point: 0, segments: vec![] }), 1);
    let huge = KernelImage {
        entry_point: 0,
        segments: vec![segment(0, 0, 0, u64::MAX, R); 5000],
    };
    assert_eq!(frame_budget(&huge), u64::MAX);
}

#[test]
fn no_root_table_without_a_frame() {
    assert!(matches!(
        AddressSpace::new(FrameAllocator::new(0x100_0000, 0)),
        Err(LoadError::ResourceExhaustion)
    ));
}

#[test]
fn bytes_beyond_the_file_are_zero() {
    let bytes = image(
        0x400000,
        &[
            entry(LOAD, R | X, 0x1000, 0x400000, 0x10, 0x10),
            entry(LOAD, R | W, 0x1800, 0x600800, 0x900, 0x2100),
        ],
        &payload(2),
    );
    let image = parsed(&bytes);
    let mut space = space_with(16);
    window().map_image(&mut space, &image, &bytes).unwrap();
    assert_eq!(space.read(0x6007ff), Some(0));
    assert_eq!(space.read(0x600000), Some(0));
    assert_eq!(space.read(0x600800), Some(bytes[0x1800]));
    assert_eq!(space.read(0x6010ff), Some(bytes[0x20ff]));
    assert_eq!(space.read(0x601100), Some(0));
    assert_eq!(space.read(0x6028ff), Some(0));
    assert_eq!(space.read(0x602900), Some(0));
    assert_eq!(space.read(0x602fff), Some(0));
    assert_eq!(space.read(0x603000), None);
    assert_eq!(space.read(0x40000f), Some(bytes[0x100f]));
    assert_eq!(space.read(0x400010), Some(0));
}

#[test]
fn segments_that_share_a_page_both_keep_their_bytes() {
    let mut space = space_with(16);
    let bytes = payload(2);
    let first = segment(0x200000, 0, 0x800, 0x800, R | W);
    let second = segment(0x200800, 0x1000, 0x400, 0x800, R | W);
    assert_eq!(space.map_segment(&first, &bytes), Ok(()));
    assert_eq!(space.frame_count(), 5);
    assert_eq!(space.map_segment(&second, &bytes), Ok(()));
    assert_eq!(space.frame_count(), 5);
    assert_eq!(space.read(0x200000), Some(bytes[0]));
    assert_eq!(space.read(0x2007ff), Some(bytes[0x7ff]));
    assert_eq!(space.read(0x200800), Some(bytes[0x1000]));
    assert_eq!(space.read(0x200bff), Some(bytes[0x13ff]));
    assert_eq!(space.read(0x200c00), Some(0));
}

#[test]
fn later_segment_adds_its_permissions_and_overwrites() {
    let mut space = space_with(16);
    let bytes = payload(2);
    let first = segment(0x200000, 0, 0x1000, 0x1000, R);
    let second = segment(0x200100, 0x1000, 0x100, 0x100, R | W);
    space.map_segment(&first, &bytes).unwrap();
    assert_eq!(
        space.permissions(0x200000),
        Some(Permissions { readable: true, writable: false, executable: false })
    );
    space.map_segment(&second, &bytes).unwrap();
    assert_eq!(
        space.permissions(0x200000),
        Some(Permissions { readable: true, writable: true, executable: false })
    );
    assert_eq!(space.read(0x2000ff), Some(bytes[0xff]));
    assert_eq!(space.read(0x200100), Some(bytes[0x1000]));
    assert_eq!(space.read(0x2001ff), Some(bytes[0x10ff]));
    assert_eq!(space.read(0x200200), Some(bytes[0x200]));
    let third = segment(0x200200, 0, 0x10, 0x10, R);
    space.map_segment(&third, &bytes).unwrap();
    assert_eq!(
        space.permissions(0x200000),
        Some(Permissions { readable: true, writable: true, executable: false })
    );
}

#[test]
fn writable_and_executable_is_refused_and_maps_nothing() {
    let bytes = payload(2);
    let mut space = space_with(16);
    let both = segment(0x200000, 0, 0x1000, 0x1000, R | W | X);
    assert_eq!(space.map_segment(&both, &bytes), Err(LoadError::InvalidSegmentPermissions));
    assert_eq!(space.frame_count(), 1);
    let code = segment(0x200000, 0, 0x1000, 0x1000, R | X);
    let data = segment(0x1ff000, 0x800, 0x1001, 0x1001, R | W);
    space.map_segment(&code, &bytes).unwrap();
    assert_eq!(space.map_segment(&data, &bytes), Err(LoadError::InvalidSegmentPermissions));
    assert_eq!(space.read(0x1ff000), None);
    assert_eq!(space.read(0x200000), Some(bytes[0]));
    assert_eq!(space.frame_count(), 5);
    let mut other = space_with(16);
    other.map_segment(&data, &bytes).unwrap();
    assert_eq!(other.map_segment(&code, &bytes), Err(LoadError::InvalidSegmentPermissions));
}

#[test]
fn map_image_stops_at_the_first_refusal() {
    let bytes = payload(2);
    let image = KernelImage {
        entry_point: 0x200000,
        segments: vec![
            segment(0x200000, 0, 0x1000, 0x1000, R | X),
            segment(0x200800, 0, 0x10, 0x10, R | W),
            segment(0x300000, 0, 0x1000, 0x1000, R | W),
        ],
    };
    let mut space = space_with(16);
    assert_eq!(
        window().map_image(&mut space, &image, &bytes),
        Err(LoadError::InvalidSegmentPermissions)
    );
    assert_eq!(space.read(0x200000), Some(bytes[0]));
    assert_eq!(space.read(0x300000), None);
}

#[test]
fn segment_that_is_malformed_or_outside_the_image_maps_nothing() {
    let bytes = payload(1);
    let mut space = space_with(16);
    for bad in [
        segment(0x200000, 1, 0x1000, 0x1000, R),
        segment(0x200000, u64::MAX, 2, 2, R),
        segment(0x200000, 0, 0x11, 0x10, R),
        segment(0x200000, 0, 0, 0, R),
        segment(0x8000_0000_0000, 0, 0x10, 0x10, R),
        segment(0xffff_7fff_ffff_ffff, 0, 0x10, 0x10, R),
        segment(0x7fff_ffff_ffff, 0, 2, 2, R),
        segment(u64::MAX, 0, 2, 2, R),
    ] {
        assert_eq!(space.map_segment(&bad, &bytes), Err(LoadError::MalformedImage));
        assert_eq!(space.frame_count(), 1);
    }
    assert_eq!(space.map_segment(&segment(u64::MAX, 0, 1, 1, R), &bytes), Ok(()));
    assert_eq!(space.read(u64::MAX), Some(bytes[0]));
    assert_eq!(space.read(0xffff_ffff_ffff_f000), Some(0));
}

#[test]
fn pages_far_apart_get_tables_of_their_own() {
    let bytes = payload(1);
    let mut space = space_with(64);
    space.map_segment(&segment(0x0000_0000_0020_0000, 0, 1, 1, R), &bytes).unwrap();
    assert_eq!(space.frame_count(), 5);
    space.map_segment(&segment(0x0000_0000_0020_1000, 1, 1, 1, R), &bytes).unwrap();
    assert_eq!(space.frame_count(), 6);
    space.map_segment(&segment(0x0000_0000_0040_0000, 2, 1, 1, R), &bytes).unwrap();
    assert_eq!(space.frame_count(), 8);
    space.map_segment(&segment(0x0000_0000_4000_0000, 3, 1, 1, R), &bytes).unwrap();
    assert_eq!(space.frame_count(), 11);
    space.map_segment(&segment(0x0000_0080_0000_0000, 4, 1, 1, R), &bytes).unwrap();
    assert_eq!(space.frame_count(), 15);
    space.map_segment(&segment(0xffff_8000_0000_0000, 5, 1, 1, R), &bytes).unwrap();
    assert_eq!(space.frame_count(), 19);
    space.map_segment(&segment(0xffff_ffff_ffff_ffff, 6, 1, 1, R), &bytes).unwrap();
    assert_eq!(space.frame_count(), 23);
    for (address, offset) in [
        (0x20_0000u64, 0usize),
        (0x20_1000, 1),
        (0x40_0000, 2),
        (0x4000_0000, 3),
        (0x80_0000_0000, 4),
        (0xffff_8000_0000_0000, 5),
        (0xffff_ffff_ffff_ffff, 6),
    ] {
        assert_eq!(space.read(address), Some(bytes[offset]));
    }
    assert_eq!(space.read(0x0000_8000_0000_0000), None);
    assert_eq!(space.read(0x0000_8000_0020_0000), None);
    assert_eq!(space.translate(0xffff_0000_0020_0000), None);
}

#[test]
fn segment_over_many_pages_and_tables() {
    let bytes = payload(3);
    let mut space = space_with(2048);
    let large = segment(0x3f_f000, 0, 0x3000, 0x20_2000, R | W);
    space.map_segment(&large, &bytes).unwrap();
    assert_eq!(space.frame_count(), 1 + 2 + 3 + 0x202);
    assert_eq!(space.read(0x3f_f000), Some(bytes[0]));
    assert_eq!(space.read(0x40_1fff), Some(bytes[0x2fff]));
    assert_eq!(space.read(0x40_2000), Some(0));
    assert_eq!(space.read(0x60_0fff), Some(0));
    assert_eq!(space.read(0x60_1000), None);
    assert_eq!(space.read(0x3f_efff), None);
}

#[test]
fn table_entries_point_to_the_frames_with_the_flags_of_the_page() {
    let bytes = two_segment_image();
    let image = parsed(&bytes);
    let mut space = space_with(16);
    window().map_image(&mut space, &image, &bytes).unwrap();
    let link = PageTableFlags::PRESENT | PageTableFlags::WRITABLE;
    let mut index = 0;
    for slot in [0usize, 0, 1] {
        match space.frame_at(index) {
            Frame::Table { table, .. } => {
                for other in 0..512 {
                    assert_eq!(table[other].is_unused(), other != slot);
                }
                assert_eq!(table[slot].flags(), link);
                assert_eq!(table[slot].addr().as_u64(), space.physical_address(index + 1));
            },
            Frame::Page { .. } => panic!("frame {} holds no table", index),
        }
        index += 1;
    }
    match space.frame_at(3) {
        Frame::Table { table, .. } => {
            assert_eq!(table[0].flags(), PageTableFlags::PRESENT);
            assert_eq!(table[0].addr().as_u64(), space.physical_address(4));
            assert_eq!(
                table[1].flags(),
                PageTableFlags::PRESENT | PageTableFlags::WRITABLE | PageTableFlags::NO_EXECUTE
            );
            assert_eq!(table[1].addr().as_u64(), space.physical_address(5));
            assert!(table[2].is_unused());
        },
        Frame::Page { .. } => panic!("frame 3 holds no table"),
    }
    match space.frame_at(4) {
        Frame::Page { page, bytes: held, .. } => {
            assert_eq!(*page, 0x200);
            assert_eq!(held[..], bytes[0x1000..0x2000]);
        },
        Frame::Table { .. } => panic!("frame 4 holds no page"),
    }
}

#[test]
fn read_only_data_is_closed_to_writes_and_to_execution() {
    let bytes = payload(1);
    let mut space = space_with(16);
    space.map_segment(&segment(0x200000, 0, 0x10, 0x10, R), &bytes).unwrap();
    match space.frame_at(3) {
        Frame::Table { table, .. } => {
            assert_eq!(table[0].flags(), PageTableFlags::PRESENT | PageTableFlags::NO_EXECUTE);
        },
        Frame::Page { .. } => panic!("frame 3 holds no table"),
    }
    space.map_segment(&segment(0x200010, 0, 0x10, 0x10, R | W), &bytes).unwrap();
    match space.frame_at(3) {
        Frame::Table { table, .. } => {
            assert_eq!(
                table[0].flags(),
                PageTableFlags::PRESENT | PageTableFlags::WRITABLE | PageTableFlags::NO_EXECUTE
            );
            assert_eq!(table[0].addr().as_u64(), space.physical_address(4));
        },
        Frame::Page { .. } => panic!("frame 3 holds no table"),
    }
}

#[test]
fn no_page_is_writable_and_executable() {
    let bytes = payload(3);
    let mut space = space_with(64);
    let segments = [
        segment(0x200000, 0, 0x1800, 0x1800, R | X),
        segment(0x202000, 0x1800, 0x800, 0x3000, R | W),
        segment(0x201800, 0, 0x10, 0x10, R | W),
        segment(0x203000, 0, 0x10, 0x10, R | X),
        segment(0x206000, 0, 0x10, 0x10, R | W | X),
        segment(0x207000, 0, 0x10, 0x10, R),
    ];
    for segment in segments.iter() {
        let _ = space.map_segment(segment, &bytes);
    }
    let mut pages = 0;
    for index in 0..space.frame_count() {
        if let Frame::Page { writable, executable, .. } = space.frame_at(index) {
            assert!(!(*writable && *executable));
            pages += 1;
        }
    }
    assert_eq!(pages, 6);
}

#[test]
fn root_table_stays_where_it_is() {
    let bytes = two_segment_image();
    let image = parsed(&bytes);
    let mut space = space_with(16);
    let root = space.root_address();
    window().map_image(&mut space, &image, &bytes).unwrap();
    assert_eq!(space.root_address(), root);
    assert_eq!(space.physical_address(0), root);
    let _ = space.map_segment(&segment(0x200000, 0, 1, 1, R | W), &bytes);
    assert_eq!(space.root_address(), root);
}

#[test]
fn segment_knows_its_pages() {
    let low = segment(0x200fff, 0, 2, 2, R);
    assert_eq!(low.start_position(), 0x200fff);
    assert_eq!(low.first_page_number(), 0x200);
    assert_eq!(low.last_page_number(), 0x201);
    let high = segment(0xffff_8000_0000_0000, 0, 0, 0x1000, R);
    assert_eq!(high.start_position(), 0x8000_0000_0000);
    assert_eq!(high.first_page_number(), 0x8_0000_0000);
    assert_eq!(high.last_page_number(), 0x8_0000_0000);
    let top = segment(0xffff_ffff_ffff_f000, 0, 0, 0x1000, R);
    assert_eq!(top.last_page_number(), 0xf_ffff_ffff);
    assert!(low.check(2));
    assert!(!low.check(1));
    assert!(high.check(0));
    assert!(!segment(0x200000, 0, 0, 0, R).check(10));
}
