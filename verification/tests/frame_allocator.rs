use bootloader::error::LoadError;
use bootloader::frame::FrameAllocator;

#[test]
fn frames_leave_in_ascending_order() {
    let mut allocator = FrameAllocator::new(0x10_0000, 3);
    assert_eq!(allocator.remaining(), 3);
    assert_eq!(allocator.allocate_frame(), Ok(0x10_0000));
    assert_eq!(allocator.allocate_frame(), Ok(0x10_1000));
    assert_eq!(allocator.allocate_frame(), Ok(0x10_2000));
    assert_eq!(allocator.remaining(), 0);
}

#[test]
fn exhausted_allocator_fails_on_every_further_call() {
    let mut allocator = FrameAllocator::new(0x20_0000, 1);
    assert_eq!(allocator.allocate_frame(), Ok(0x20_0000));
    assert_eq!(allocator.allocate_frame(), Err(LoadError::ResourceExhaustion));
    assert_eq!(allocator.allocate_frame(), Err(LoadError::ResourceExhaustion));
}

#[test]
fn empty_region_has_no_frame() {
    let mut allocator = FrameAllocator::new(0, 0);
    assert_eq!(allocator.allocate_frame(), Err(LoadError::ResourceExhaustion));
}
