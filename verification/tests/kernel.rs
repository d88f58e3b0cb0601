use lib::device::{Device, MemoryDevice};
use lib::error::Status;
use lib::filesystem::file::FileMetadata;
use lib::filesystem::file_descriptor::{FileDescriptor, SeekFrom};
use lib::filesystem::{open_mode, parse_filepath, plan_path, OpenMode, PathMove};
use lib::filesystem::{OPEN_APPEND, OPEN_CREATE, OPEN_READ, OPEN_READ_WRITE, OPEN_TRUNCATE, OPEN_WRITE};
use lib::interrupts::gdt::{kernel_table, tss_descriptors, Entry, GlobalDescriptorTable, TSS};
use lib::interrupts::irq::scan_madt;
use lib::process::execute::{check_entry, executable_name, parent_path, process_home, starting_signals, userspace_image, ProcessHome};
use lib::ipc::signals::{SignalOutcome, Signals};
use lib::process::execute::{C_STANDARD_IO_SIZE, USERSPACE_CONTEXT_LOCATION, USERSPACE_CONTEXT_SIZE};
use lib::process::thread::stack::{Stack, KERNEL_STACK_SIZE};
use lib::process::{CStandardIO, StandardIO, StandardIOType};
use lib::session::console::{Color, Console, IOCTRL_CLEAR, IOCTRL_SET_CURSOR_X, IOCTRL_SET_CURSOR_Y};
use lib::session::event::{CEvent, Event};
use lib::memory::KERNEL_VMA;

#[test]
fn gdt_entries_have_the_documented_bits() {
    let kernel_code = Entry::new(true, false, false, true);
    assert_eq!(kernel_code.access, 154);
    assert_eq!(kernel_code.flags_limit_high, 175);
    assert_eq!(kernel_code.limit_low, 0xFFFF);
    let kernel_data = Entry::new(false, false, true, false);
    assert_eq!(kernel_data.access, 146);
    assert_eq!(kernel_data.flags_limit_high, 207);
    let user_data = Entry::new(false, true, true, false);
    assert_eq!(user_data.access, 242);
    let user_code = Entry::new(true, true, false, true);
    assert_eq!(user_code.access, 250);
    assert_eq!(user_code.flags_limit_high, 175);
    assert_eq!(Entry::null().access, 0);
}

#[test]
fn tss_descriptors_split_the_address() {
    let (low, high) = tss_descriptors(0x1234_5678_9ABC_DEF0);
    assert_eq!(low.limit_low, 104);
    assert_eq!(low.base_low, 0xDEF0);
    assert_eq!(low.base_mid, 0xBC);
    assert_eq!(low.base_high, 0x9A);
    assert_eq!(low.access, 233);
    assert_eq!(low.flags_limit_high, 128);
    assert_eq!(high.limit_low, 0x5678);
    assert_eq!(high.base_low, 0x1234);
    assert_eq!(high.access, 0);
}

#[test]
fn kernel_table_layout() {
    let GlobalDescriptorTable(entries) = kernel_table(0x5000);
    assert_eq!(entries[0], Entry::null());
    assert_eq!(entries[1], Entry::new(true, false, false, true));
    assert_eq!(entries[2], Entry::new(false, false, true, false));
    assert_eq!(entries[3], Entry::new(false, true, true, false));
    assert_eq!(entries[4], Entry::new(true, true, false, true));
    assert_eq!((entries[5], entries[6]), tss_descriptors(0x5000));
    let GlobalDescriptorTable(nulls) = GlobalDescriptorTable::null();
    assert!(nulls.iter().all(|e| *e == Entry::null()));
}

#[test]
fn tss_stack_is_set() {
    let mut tss = TSS::null();
    tss.set_stack(0xFFFF_8000_0010_0000);
    tss.set_stack(0x1000);
}

fn madt(entries: &[u8], flags: u32) -> Vec<u8> {
    let mut t = vec![0u8; 44];
    t[0..4].copy_from_slice(b"APIC");
    let length = (44 + entries.len()) as u32;
    t[4..8].copy_from_slice(&length.to_le_bytes());
    t[36..40].copy_from_slice(&0xFEE0_0000u32.to_le_bytes());
    t[40..44].copy_from_slice(&flags.to_le_bytes());
    t.extend_from_slice(entries);
    t
}

#[test]
fn madt_lists_io_apics_in_order() {
    let mut entries = Vec::new();
    // A local APIC entry, then two I/O APICs.
    entries.extend_from_slice(&[0, 8, 0, 0, 1, 0, 0, 0]);
    entries.extend_from_slice(&[1, 12, 0, 0]);
    entries.extend_from_slice(&0xFEC0_0000u32.to_le_bytes());
    entries.extend_from_slice(&[0, 0, 0, 0]);
    entries.extend_from_slice(&[1, 12, 1, 0]);
    entries.extend_from_slice(&0xFEC0_1000u32.to_le_bytes());
    entries.extend_from_slice(&[0, 0, 0, 0]);
    let info = scan_madt(&madt(&entries, 1));
    assert!(info.has_pics);
    assert_eq!(info.local_apic, 0xFEE0_0000);
    assert_eq!(info.io_apics, vec![0xFEC0_0000, 0xFEC0_1000]);
}

#[test]
fn madt_override_replaces_local_apic_address() {
    let mut entries = Vec::new();
    entries.extend_from_slice(&[5, 12, 0, 0]);
    entries.extend_from_slice(&0x1_2345_0000u64.to_le_bytes());
    let info = scan_madt(&madt(&entries, 0));
    assert!(!info.has_pics);
    assert_eq!(info.local_apic, 0x1_2345_0000);
    assert!(info.io_apics.is_empty());
}

#[test]
fn stdio_to_userspace_and_back() {
    let stdio = StandardIO::new(StandardIOType::Console, StandardIOType::File(7), StandardIOType::Detached);
    let c = stdio.to_c_stdio();
    assert_eq!(
        c,
        CStandardIO { stdout_type: 1, stdout_desc: 0, stderr_type: 2, stderr_desc: 7, stdin_type: 0, stdin_desc: 0 }
    );
    assert_eq!(c.to_stdio(), Ok(stdio));
    let bad = CStandardIO { stdin_type: 3, ..c };
    assert_eq!(bad.to_stdio(), Err(Status::OutOfRange));
    assert_eq!(StandardIOType::File(3).to_c_stdio(), (2, 3));
}

#[test]
fn events_convert_for_userspace() {
    assert_eq!(CEvent::from(Event::KeyPress(30)), CEvent { class: 0, param1: 30 });
    assert_eq!(CEvent::from(Event::KeyRelease(30)), CEvent { class: 1, param1: 30 });
}

#[test]
fn stack_push_moves_down() {
    let mut stack = Stack::new(vec![0u8; KERNEL_STACK_SIZE], 0x10000);
    assert_eq!(stack.top(), 0x10000 + KERNEL_STACK_SIZE);
    assert_eq!(*stack.pointer(), 0x10000 + KERNEL_STACK_SIZE);
    stack.push(0x1122_3344_5566_7788);
    stack.push(1);
    assert_eq!(*stack.pointer(), 0x10000 + KERNEL_STACK_SIZE - 16);
}

#[test]
fn colors_pack_and_unpack() {
    let c = Color::new(0x12, 0x34, 0x56);
    assert_eq!(c.as_usize(), 0x123456);
    assert_eq!(Color::from_usize(0x123456), c);
    assert_eq!(Color::from_usize(0xFF_123456), c);
    let avg = Color::average(&Color::new(10, 20, 30), &Color::new(20, 41, 255));
    assert_eq!(avg, Color::new(15, 30, 142));
    assert_eq!(lib::session::color::Color::new(0x12, 0x34, 0x56).0, 0x123456);
}

#[test]
fn console_sends_commands_and_queues_events() {
    let mut console = Console::new(MemoryDevice::new(1, 4));
    assert_eq!(console.clear(), Ok(()));
    assert_eq!(console.set_cursor_pos(3, 4), Ok(()));
    assert_eq!(console.get_width(), Ok(0));
    assert_eq!(console.write(b"abcd"), Ok(()));
    assert_eq!(console.write_str("too long"), Ok(()));
    assert_eq!(console.peek_event(), None);
    console.push_event(Event::KeyPress(1));
    console.push_event(Event::KeyRelease(1));
    assert_eq!(console.peek_event(), Some(Event::KeyPress(1)));
    assert_eq!(console.peek_event(), Some(Event::KeyRelease(1)));
    assert_eq!(console.peek_event(), None);
    let mut device = MemoryDevice::new(1, 4);
    device.ioctrl(IOCTRL_CLEAR, 0).unwrap();
    device.ioctrl(IOCTRL_SET_CURSOR_X, 3).unwrap();
    device.ioctrl(IOCTRL_SET_CURSOR_Y, 4).unwrap();
    assert_eq!(device.command_history(), vec![(0, 0), (4, 3), (5, 4)]);
}

#[test]
fn memory_device_reads_back_writes() {
    let mut device = MemoryDevice::new(2, 4);
    assert_eq!(device.block_count(), 2);
    device.write(1, &vec![1, 2, 3, 4]).unwrap();
    let mut b = vec![0u8; 4];
    device.read(1, &mut b).unwrap();
    assert_eq!(b, vec![1, 2, 3, 4]);
    device.read(0, &mut b).unwrap();
    assert_eq!(b, vec![0, 0, 0, 0]);
    assert_eq!(device.read(2, &mut b), Err(Status::OutOfRange));
    assert_eq!(device.write(2, &b), Err(Status::OutOfRange));
    let mut short = vec![0u8; 3];
    assert_eq!(device.read(1, &mut short), Err(Status::OutOfRange));
}

#[test]
fn executable_paths() {
    assert_eq!(executable_name(":1/bin/shell.app"), "shell.app");
    assert_eq!(executable_name("shell.app"), "shell.app");
    assert_eq!(executable_name("a\\b\\c"), "c");
    assert_eq!(parent_path(":1/bin/shell.app"), ":1/bin");
    assert_eq!(parent_path("a\\b\\c"), "a/b");
    assert_eq!(parent_path("shell.app"), "");
}

#[test]
fn entry_points_in_the_kernel_are_refused() {
    assert_eq!(check_entry(0x400000), Ok(0x400000));
    assert_eq!(check_entry(KERNEL_VMA as usize), Err(Status::ArgumentSecurity));
}

#[test]
fn userspace_image_lays_out_arguments() {
    let args = vec!["prog".to_string(), "-v".to_string()];
    let env = vec!["A=1".to_string()];
    let image = userspace_image(&args, &env);
    assert_eq!(image.context_location, USERSPACE_CONTEXT_LOCATION);
    assert_eq!(image.stdio_location, USERSPACE_CONTEXT_LOCATION + USERSPACE_CONTEXT_SIZE);
    assert_eq!(image.arg_list, image.stdio_location + C_STANDARD_IO_SIZE);
    assert_eq!(image.env_list, image.arg_list + 8 * 3);
    assert_eq!(image.strings_start, image.env_list + 8 * 2);
    assert_eq!(image.strings, b"prog\0-v\0A=1\0".to_vec());
    assert_eq!(image.arg_pointers, vec![image.strings_start, image.strings_start + 5]);
    assert_eq!(image.env_pointers, vec![image.strings_start + 8]);
}

fn strings(v: &[&str]) -> Vec<String> {
    v.iter().map(|s| s.to_string()).collect()
}

#[test]
fn parse_filepath_scenarios() {
    assert_eq!(parse_filepath(":3/a/b", true), Ok((Some(3), strings(&["a", "b"]))));
    assert_eq!(parse_filepath("a\\b", true), Ok((None, strings(&["a", "b"]))));
    assert_eq!(parse_filepath(":0/docs/", false), Ok((Some(0), strings(&["docs"]))));
    assert_eq!(parse_filepath(":0/docs/", true), Err(Status::InvalidArgument));
    assert_eq!(parse_filepath(":-1/x", true), Err(Status::InvalidArgument));
    assert_eq!(parse_filepath(":x/y", true), Err(Status::InvalidArgument));
    assert_eq!(parse_filepath(":/y", true), Err(Status::InvalidArgument));
    assert_eq!(parse_filepath("/a", true), Ok((None, strings(&["", "a"]))));
    assert_eq!(parse_filepath("", true), Ok((None, strings(&[""]))));
    assert_eq!(parse_filepath(":+12", false), Ok((Some(12), Vec::new())));
}

#[test]
fn file_descriptor_offsets() {
    let mut fd = FileDescriptor::new(true, false, 10);
    assert_eq!(fd.offset(), 10);
    assert_eq!(fd.check_read(), Ok(()));
    assert_eq!(fd.check_write(), Err(Status::ReadOnly));
    fd.advance(5);
    assert_eq!(fd.offset(), 15);
    fd.advance(-1);
    assert_eq!(fd.offset(), 15);
    assert_eq!(fd.seek(3, SeekFrom::Current, 100), 18);
    assert_eq!(fd.seek(4, SeekFrom::End, 100), 104);
    assert_eq!(fd.seek(7, SeekFrom::Start, 100), 7);
    assert_eq!(fd.offset(), 7);
    let w = FileDescriptor::new(false, true, 0);
    assert_eq!(w.check_read(), Err(Status::WriteOnly));
    assert_eq!(w.check_write(), Ok(()));
    assert_eq!(SeekFrom::from(1usize), SeekFrom::Current);
    assert_eq!(SeekFrom::from(2usize), SeekFrom::End);
    assert_eq!(SeekFrom::from(9usize), SeekFrom::Start);
}

#[test]
fn file_metadata_size() {
    let mut m = FileMetadata::new(3);
    assert_eq!(m.size(), 3);
    m.set_size(9);
    assert_eq!(m.size(), 9);
}

#[test]
fn open_flags() {
    assert_eq!(open_mode(0), Err(Status::InvalidArgument));
    assert_eq!(open_mode(OPEN_CREATE | OPEN_TRUNCATE), Err(Status::InvalidArgument));
    let m = open_mode(OPEN_READ).unwrap();
    assert_eq!(m, OpenMode { read: true, write: false, truncate: false, append: false, create: false });
    let m = open_mode(OPEN_READ_WRITE | OPEN_APPEND | OPEN_CREATE).unwrap();
    assert_eq!(m, OpenMode { read: true, write: true, truncate: false, append: true, create: true });
    assert_eq!(m.starting_offset(40), 40);
    let w = open_mode(OPEN_WRITE | OPEN_TRUNCATE).unwrap();
    assert!(w.truncate && w.write && !w.read);
    assert_eq!(w.starting_offset(40), 0);
}

#[test]
fn path_walk_plans() {
    let comps = strings(&["a", ".", "..", "b", "file.txt"]);
    let (steps, name) = plan_path(&comps, true);
    assert_eq!(steps, vec![PathMove::Open("a".to_string()), PathMove::Up, PathMove::Open("b".to_string())]);
    assert_eq!(name, Some("file.txt".to_string()));
    let (steps, name) = plan_path(&comps, false);
    assert_eq!(steps.len(), 4);
    assert_eq!(name, None);
    let (steps, name) = plan_path(&Vec::new(), true);
    assert!(steps.is_empty());
    assert_eq!(name, None);
}

#[test]
fn executed_process_goes_to_its_session_or_the_daemons() {
    assert_eq!(process_home(None, false), Ok(ProcessHome::Daemon));
    assert_eq!(process_home(Some(3), true), Ok(ProcessHome::Session(3)));
    assert_eq!(process_home(Some(3), false), Err(Status::InvalidSession));
}

#[test]
fn executed_process_inherits_signals_only_when_asked() {
    let mut current = Signals::new();
    current.raise(1);
    let mut inherited = starting_signals(true, &current);
    assert!(matches!(inherited.handle(None), SignalOutcome::Exit(129)));
    let mut fresh = starting_signals(false, &current);
    assert!(matches!(fresh.handle(None), SignalOutcome::Continue));
}
