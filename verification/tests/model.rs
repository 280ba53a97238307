use std::collections::BTreeMap;

use bootloader::error::LoadError;
use bootloader::frame::FrameAllocator;
use bootloader::image::{Permissions, Segment};
use bootloader::space::{AddressSpace, Frame};

/// A small generator of numbers that gives the same run every time.
struct Numbers(u64);

impl Numbers {
    fn next(&mut self) -> u64 {
        self.0 = self.0.wrapping_mul(6364136223846793005).wrapping_add(1442695040888963407);
        self.0 >> 33
    }

    fn below(&mut self, bound: u64) -> u64 {
        self.next() % bound
    }
}

/// What the kernel should find at each page: its bytes and permissions.
struct Expected {
    pages: BTreeMap<u64, (Vec<u8>, bool, bool)>,
}

impl Expected {
    fn refuses(&self, segment: &Segment) -> bool {
        let first = segment.virtual_address / 4096;
        let last = (segment.virtual_address + segment.memory_size - 1) / 4096;
        (first..=last).any(|page| {
            let (writable, executable) = match self.pages.get(&page) {
                Some((_, writable, executable)) => (*writable, *executable),
                None => (false, false),
            };
            (writable || segment.permissions.writable)
                && (executable || segment.permissions.executable)
        })
    }

    fn map(&mut self, segment: &Segment, image: &[u8]) {
        for offset in 0..segment.memory_size {
            let address = segment.virtual_address + offset;
            let page = self
                .pages
                .entry(address / 4096)
                .or_insert_with(|| (vec![0u8; 4096], false, false));
            page.0[(address % 4096) as usize] = if offset < segment.physical_size {
                image[(segment.file_offset + offset) as usize]
            } else {
                0
            };
            page.1 |= segment.permissions.writable;
            page.2 |= segment.permissions.executable;
        }
    }
}

fn random_segment(numbers: &mut Numbers, image_len: u64) -> Segment {
    let bases = [
        0x20_0000u64,
        0x3f_e000,
        0x7fff_ffff_0000,
        0xffff_8000_0000_0000,
        0xffff_ffff_ffff_0000,
    ];
    let base = bases[numbers.below(bases.len() as u64) as usize];
    let memory_size = 1 + numbers.below(0x2800);
    let physical_size = numbers.below(memory_size + 1);
    let kinds = [(false, false), (true, false), (false, true), (true, true)];
    let (writable, executable) = kinds[numbers.below(kinds.len() as u64) as usize];
    Segment {
        virtual_address: base + numbers.below(0x8000),
        file_offset: numbers.below(image_len - physical_size + 1),
        physical_size,
        memory_size,
        permissions: Permissions { readable: true, writable, executable },
    }
}

fn check(space: &AddressSpace, expected: &Expected) {
    let mut pages = 0;
    for index in 0..space.frame_count() {
        if let Frame::Page { page, writable, executable, bytes } = space.frame_at(index) {
            let address = if *page < 0x8_0000_0000 {
                *page * 4096
            } else {
                *page * 4096 + 0xffff_0000_0000_0000
            };
            let (held, held_writable, held_executable) = &expected.pages[&(address / 4096)];
            assert_eq!(bytes, held);
            assert_eq!((*writable, *executable), (*held_writable, *held_executable));
            assert_eq!(space.translate(address + 5), Some(space.physical_address(index) + 5));
            pages += 1;
        }
    }
    assert_eq!(pages, expected.pages.len());
    for (page, (bytes, writable, executable)) in expected.pages.iter() {
        for offset in [0u64, 1, 0x7ff, 0x800, 0xffe, 0xfff] {
            assert_eq!(space.read(page * 4096 + offset), Some(bytes[offset as usize]));
        }
        assert_eq!(
            space.permissions(page * 4096),
            Some(Permissions { readable: true, writable: *writable, executable: *executable })
        );
    }
}

#[test]
fn random_segments_leave_what_a_plain_model_expects() {
    let image: Vec<u8> = (0..0x5000u32).map(|index| (index * 7 % 253) as u8 + 1).collect();
    for seed in 0..40 {
        let mut numbers = Numbers(seed);
        let mut space = AddressSpace::new(FrameAllocator::new(0x40_0000, 4096)).unwrap();
        let mut expected = Expected { pages: BTreeMap::new() };
        for _ in 0..12 {
            let segment = random_segment(&mut numbers, image.len() as u64);
            let frames = space.frame_count();
            let result = space.map_segment(&segment, &image);
            if expected.refuses(&segment) {
                assert_eq!(result, Err(LoadError::InvalidSegmentPermissions));
                assert_eq!(space.frame_count(), frames);
            } else {
                assert_eq!(result, Ok(()));
                expected.map(&segment, &image);
            }
        }
        check(&space, &expected);
    }
}

#[test]
fn random_segments_run_out_of_frames_exactly_when_counted() {
    let image: Vec<u8> = (0..0x5000u32).map(|index| (index % 251) as u8).collect();
    for seed in 100..130 {
        let mut numbers = Numbers(seed);
        let segment = random_segment(&mut numbers, image.len() as u64);
        if segment.permissions.writable && segment.permissions.executable {
            continue;
        }
        let mut large = AddressSpace::new(FrameAllocator::new(0x40_0000, 64)).unwrap();
        large.map_segment(&segment, &image).unwrap();
        let needed = large.frame_count() as u64;
        let mut exact = AddressSpace::new(FrameAllocator::new(0x40_0000, needed)).unwrap();
        assert_eq!(exact.map_segment(&segment, &image), Ok(()));
        assert_eq!(exact.free_frames(), 0);
        let mut short = AddressSpace::new(FrameAllocator::new(0x40_0000, needed - 1)).unwrap();
        assert_eq!(short.map_segment(&segment, &image), Err(LoadError::ResourceExhaustion));
        assert_eq!(short.free_frames(), 0);
    }
}
