use bootloader::error::LoadError;
use bootloader::halt::{abort, eh_personality, halt_on};
use bootloader::handoff::{dispatch, MemoryDescriptor, PHYSICAL_MEMORY_OFFSET};
use bootloader::image::KernelImage;
use bootloader::registers::{ControlRegisters, WriteWindow, WRITE_PROTECT};
use bootloader::transition::{buffer_size, Phase, Reply, Request, Transition};
use bootloader::{BootInfo, MemoryMap};

fn descriptor(physical_start: u64, page_count: u64, region_type: u32) -> MemoryDescriptor {
    MemoryDescriptor { physical_start, page_count, region_type, attributes: 0xf }
}

fn map_size(map_size: usize) -> Reply {
    Reply::MapSize { map_size, entry_size: 48 }
}

fn captured() -> Vec<MemoryDescriptor> {
    vec![descriptor(0, 0xa0, 7), descriptor(0x10_0000, 0x700, 2), descriptor(0x80_0000, 0x7800, 7)]
}

#[test]
fn window_lifts_and_restores_write_protection_only() {
    let registers = ControlRegisters { cr0: 0x8005_0033, cr3: 0x7fe0_1000 };
    let window = WriteWindow::open(registers);
    assert_eq!(window.in_force(), ControlRegisters { cr0: 0x8004_0033, cr3: 0x7fe0_1000 });
    assert_eq!(window.close(), registers);
}

#[test]
fn window_closes_with_write_protection_on() {
    let registers = ControlRegisters { cr0: 0x8000_0011, cr3: 0x1000 };
    let window = WriteWindow::open(registers);
    assert_eq!(window.in_force(), registers);
    let closed = window.close();
    assert_eq!(closed.cr0, 0x8001_0011);
    assert_eq!(closed.cr0 & WRITE_PROTECT, WRITE_PROTECT);
    assert_eq!(closed.cr3, 0x1000);
}

#[test]
fn root_table_address_is_unchanged_by_the_window() {
    let registers = ControlRegisters { cr0: 0xffff_ffff, cr3: 0x000f_ffff_ffff_f018 };
    assert_eq!(registers.root_table_address(), 0x000f_ffff_ffff_f000);
    let window = WriteWindow::open(registers);
    assert_eq!(window.in_force().root_table_address(), 0x000f_ffff_ffff_f000);
    assert_eq!(window.close().root_table_address(), 0x000f_ffff_ffff_f000);
}

#[test]
fn transition_retires_the_firmware_at_the_first_try() {
    let (transition, request) = Transition::begin();
    assert_eq!(request, Request::QueryMapSize);
    assert_eq!(transition.current_phase(), Phase::FirmwareActive);
    let (transition, request) = transition.advance(map_size(4800));
    assert_eq!(request, Request::ExitBootServices { buffer_size: 4800 + 8 * 48 });
    assert_eq!(transition.current_phase(), Phase::Transitioning);
    let (transition, request) = transition.advance(Reply::Captured(captured()));
    assert_eq!(request, Request::HandOver);
    assert_eq!(transition.current_phase(), Phase::FirmwareRetired);
    assert_eq!(transition.finalize().unwrap().descriptors, captured());
}

#[test]
fn transition_retries_once_after_a_refusal() {
    let (transition, _) = Transition::begin();
    let (transition, _) = transition.advance(map_size(4800));
    let (transition, request) = transition.advance(Reply::Refused);
    assert_eq!(request, Request::QueryMapSize);
    assert_eq!(transition.current_phase(), Phase::FirmwareActive);
    let (transition, request) = transition.advance(map_size(4848));
    assert_eq!(request, Request::ExitBootServices { buffer_size: 4848 + 8 * 48 });
    let (transition, request) = transition.advance(Reply::Captured(captured()));
    assert_eq!(request, Request::HandOver);
    assert_eq!(transition.finalize().unwrap().descriptors, captured());
}

#[test]
fn second_refusal_is_fatal_and_stays_fatal() {
    let (transition, _) = Transition::begin();
    let (transition, _) = transition.advance(map_size(4800));
    let (transition, _) = transition.advance(Reply::Refused);
    let (transition, _) = transition.advance(map_size(4848));
    let (transition, request) = transition.advance(Reply::Refused);
    assert_eq!(request, Request::Halt(LoadError::TransitionRaceFailure));
    assert_eq!(transition.current_phase(), Phase::Halted);
    let (transition, request) = transition.advance(map_size(4896));
    assert_eq!(request, Request::Halt(LoadError::TransitionRaceFailure));
    let (transition, request) = transition.advance(Reply::Captured(captured()));
    assert_eq!(request, Request::Halt(LoadError::TransitionRaceFailure));
    let (transition, request) = transition.advance(Reply::Refused);
    assert_eq!(request, Request::Halt(LoadError::TransitionRaceFailure));
    assert_eq!(transition.current_phase(), Phase::Halted);
    assert_eq!(transition.finalize().unwrap_err(), LoadError::TransitionRaceFailure);
}

#[test]
fn reply_to_a_question_not_asked_is_fatal() {
    let (transition, _) = Transition::begin();
    let (transition, request) = transition.advance(Reply::Captured(captured()));
    assert_eq!(request, Request::Halt(LoadError::TransitionRaceFailure));
    assert_eq!(transition.finalize().unwrap_err(), LoadError::TransitionRaceFailure);
    let (transition, _) = Transition::begin();
    let (transition, request) = transition.advance(Reply::Refused);
    assert_eq!(request, Request::Halt(LoadError::TransitionRaceFailure));
    assert_eq!(transition.current_phase(), Phase::Halted);
    let (transition, _) = Transition::begin();
    let (transition, _) = transition.advance(map_size(1));
    let (transition, request) = transition.advance(map_size(2));
    assert_eq!(request, Request::Halt(LoadError::TransitionRaceFailure));
    assert_eq!(transition.current_phase(), Phase::Halted);
}

#[test]
fn nothing_is_asked_of_a_retired_firmware() {
    let (transition, _) = Transition::begin();
    let (transition, _) = transition.advance(map_size(4800));
    let (transition, _) = transition.advance(Reply::Captured(captured()));
    let (transition, request) = transition.advance(map_size(1));
    assert_eq!(request, Request::HandOver);
    let (transition, request) = transition.advance(Reply::Refused);
    assert_eq!(request, Request::HandOver);
    let (transition, request) = transition.advance(Reply::Captured(vec![]));
    assert_eq!(request, Request::HandOver);
    assert_eq!(transition.current_phase(), Phase::FirmwareRetired);
    assert_eq!(transition.finalize().unwrap().descriptors, captured());
}

#[test]
fn transition_is_not_final_before_the_firmware_retires() {
    let (transition, _) = Transition::begin();
    assert_eq!(transition.finalize().unwrap_err(), LoadError::TransitionRaceFailure);
    let (transition, _) = Transition::begin();
    let (transition, _) = transition.advance(map_size(4800));
    assert_eq!(transition.finalize().unwrap_err(), LoadError::TransitionRaceFailure);
}

#[test]
fn memory_map_accounts_for_every_page_captured() {
    let map = MemoryMap { descriptors: captured() };
    assert_eq!(map.pages(), Some(0xa0 + 0x700 + 0x7800));
    assert_eq!(MemoryMap { descriptors: vec![] }.pages(), Some(0));
    let full = MemoryMap { descriptors: vec![descriptor(0, u64::MAX, 7)] };
    assert_eq!(full.pages(), Some(u64::MAX));
    let beyond = MemoryMap { descriptors: vec![descriptor(0, u64::MAX, 7), descriptor(0, 1, 7)] };
    assert_eq!(beyond.pages(), None);
}

#[test]
fn boot_info_carries_the_map_and_the_fixed_offset() {
    let info = BootInfo::new(MemoryMap { descriptors: captured() }, 0x7fe_d014);
    assert_eq!(info.memory_map.descriptors, captured());
    assert_eq!(info.physical_memory_offset, 0xFFFF_8000_0000_0000);
    assert_eq!(info.physical_memory_offset, PHYSICAL_MEMORY_OFFSET);
    assert_eq!(info.acpi2_rsdp_addr, 0x7fe_d014);
    assert_eq!(info.memory_map.clone().descriptors, captured());
}

#[test]
fn dispatch_jumps_to_the_entry_point_of_the_image() {
    let image = KernelImage { entry_point: 0xffff_ffff_8000_1000, segments: vec![] };
    let (transition, _) = Transition::begin();
    let (transition, _) = transition.advance(map_size(4800));
    let (transition, _) = transition.advance(Reply::Captured(captured()));
    let jump = dispatch(&image, transition.finalize().unwrap(), 0x7fe_d014);
    assert_eq!(jump.entry_point, 0xffff_ffff_8000_1000);
    assert_eq!(jump.boot_info.memory_map.pages(), Some(0x7fa0));
    assert_eq!(jump.boot_info.physical_memory_offset, PHYSICAL_MEMORY_OFFSET);
    assert_eq!(jump.boot_info.acpi2_rsdp_addr, 0x7fe_d014);
}

#[test]
fn every_error_halts_with_its_own_diagnostic() {
    let errors = [
        LoadError::ResourceExhaustion,
        LoadError::MalformedImage,
        LoadError::InvalidSegmentPermissions,
        LoadError::TransitionRaceFailure,
        LoadError::EntryUnreachable,
    ];
    let texts: Vec<&str> = errors.iter().map(|error| halt_on(*error).diagnostic.unwrap()).collect();
    assert_eq!(texts[0], "no physical frame left");
    assert_eq!(texts[1], "kernel image is malformed");
    assert_eq!(texts[2], "segment asks for a writable and executable page");
    assert_eq!(texts[3], "memory map changed while boot services were retired");
    assert_eq!(texts[4], "entry point is not mapped for execution");
}

#[test]
fn kernel_stub_halts_in_silence_or_names_the_abort() {
    assert_eq!(eh_personality().diagnostic, None);
    assert_eq!(abort().diagnostic, Some("abort!"));
}

#[test]
fn buffer_has_room_for_the_map_and_eight_spare_entries() {
    assert_eq!(buffer_size(0, 0), 0);
    assert_eq!(buffer_size(4800, 48), 5184);
    assert_eq!(buffer_size(1, 40), 321);
    assert_eq!(buffer_size(usize::MAX, 1), usize::MAX);
    assert_eq!(buffer_size(usize::MAX - 8, 1), usize::MAX);
    assert_eq!(buffer_size(usize::MAX - 9, 1), usize::MAX - 1);
    assert_eq!(buffer_size(7, usize::MAX / 8 + 1), usize::MAX);
    assert_eq!(buffer_size(7, usize::MAX / 8), usize::MAX);
    assert_eq!(buffer_size(0, usize::MAX / 8), usize::MAX - 7);
}
