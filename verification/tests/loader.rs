use lib::error::Status;
use lib::process::loader::{plan_load, verify_executable, LoadAction};
use lib::process::execute::{plan_execute, ProcessHome};
use lib::ipc::signals::Signals;

fn header(phnum: u16) -> Vec<u8> {
    let mut h = vec![0u8; 64];
    h[0..4].copy_from_slice(&[0x7F, b'E', b'L', b'F']);
    h[4] = 2;
    h[5] = 1;
    h[6] = 1;
    h[16..18].copy_from_slice(&2u16.to_le_bytes());
    h[18..20].copy_from_slice(&62u16.to_le_bytes());
    h[20..24].copy_from_slice(&1u32.to_le_bytes());
    h[24..32].copy_from_slice(&0x401000u64.to_le_bytes());
    h[32..40].copy_from_slice(&64u64.to_le_bytes());
    h[54..56].copy_from_slice(&56u16.to_le_bytes());
    h[56..58].copy_from_slice(&phnum.to_le_bytes());
    h
}

fn program_header(p_type: u32, offset: u64, vaddr: u64, filesz: u64, memsz: u64, align: u64) -> Vec<u8> {
    let mut p = vec![0u8; 56];
    p[0..4].copy_from_slice(&p_type.to_le_bytes());
    p[8..16].copy_from_slice(&offset.to_le_bytes());
    p[16..24].copy_from_slice(&vaddr.to_le_bytes());
    p[32..40].copy_from_slice(&filesz.to_le_bytes());
    p[40..48].copy_from_slice(&memsz.to_le_bytes());
    p[48..56].copy_from_slice(&align.to_le_bytes());
    p
}

#[test]
fn a_good_header_gives_the_entry_point() {
    assert_eq!(verify_executable(&header(0)), Ok(0x401000));
}

#[test]
fn bad_headers_are_refused_in_order() {
    let mut h = header(0);
    h[1] = b'X';
    assert_eq!(verify_executable(&h), Err(Status::InvalidArgument));
    let mut h = header(0);
    h[4] = 1;
    assert_eq!(verify_executable(&h), Err(Status::NotSupported));
    let mut h = header(0);
    h[5] = 2;
    assert_eq!(verify_executable(&h), Err(Status::NotSupported));
    let mut h = header(0);
    h[6] = 0;
    assert_eq!(verify_executable(&h), Err(Status::InvalidArgument));
    let mut h = header(0);
    h[16] = 3;
    assert_eq!(verify_executable(&h), Err(Status::InvalidArgument));
    let mut h = header(0);
    h[18] = 3;
    assert_eq!(verify_executable(&h), Err(Status::NotSupported));
    // A wrong class comes before a wrong machine.
    let mut h = header(0);
    h[4] = 1;
    h[18] = 3;
    assert_eq!(verify_executable(&h), Err(Status::NotSupported));
}

#[test]
fn plan_copies_load_and_tls_segments() {
    let mut b = header(3);
    b.extend(program_header(1, 0x1000, 0x400000, 0x200, 0x300, 0x1000));
    b.extend(program_header(4, 0, 0, 0, 0, 0));
    b.extend(program_header(7, 0x2000, 0, 0x10, 0x18, 8));
    let plan = plan_load(&b);
    assert_eq!(
        plan.actions,
        vec![
            LoadAction::Segment { offset: 0x1000, vaddr: 0x400000, filesz: 0x200, memsz: 0x300 },
            LoadAction::ThreadLocal { offset: 0x2000, filesz: 0x10, memsz: 0x18 },
        ]
    );
    assert_eq!(plan.result, Ok((0x18, 8)));
}

#[test]
fn plan_without_tls_has_none() {
    let mut b = header(1);
    b.extend(program_header(1, 0, 0x400000, 4, 4, 0x1000));
    let plan = plan_load(&b);
    assert_eq!(plan.actions.len(), 1);
    assert_eq!(plan.result, Ok((0, 0)));
}

#[test]
fn a_second_tls_segment_is_refused() {
    let mut b = header(3);
    b.extend(program_header(7, 0x2000, 0, 0x10, 0x18, 8));
    b.extend(program_header(7, 0x3000, 0, 0x10, 0x18, 8));
    b.extend(program_header(1, 0x1000, 0x400000, 0x200, 0x300, 0x1000));
    let plan = plan_load(&b);
    assert_eq!(plan.actions, vec![LoadAction::ThreadLocal { offset: 0x2000, filesz: 0x10, memsz: 0x18 }]);
    assert_eq!(plan.result, Err(Status::InvalidExecutableFormat));
}

#[test]
fn execute_plan_checks_header_entry_then_session() {
    let current = Signals::new();
    let mut bad = header(0);
    bad[1] = b'X';
    assert_eq!(plan_execute(&bad, ":0/bin/app", Some(4), false, true, &current).err(), Some(Status::InvalidArgument));
    let mut kernel = header(0);
    kernel[24..32].copy_from_slice(&0xFFFF_8000_0000_0000u64.to_le_bytes());
    assert_eq!(plan_execute(&kernel, ":0/bin/app", Some(4), false, true, &current).err(), Some(Status::ArgumentSecurity));
    assert_eq!(plan_execute(&header(0), ":0/bin/app", Some(4), false, true, &current).err(), Some(Status::InvalidSession));
    let plan = plan_execute(&header(0), ":0/bin/app", Some(4), true, false, &current).unwrap();
    assert_eq!(plan.entry, 0x401000);
    assert_eq!(plan.name, "app");
    assert_eq!(plan.home, ProcessHome::Session(4));
    let daemon = plan_execute(&header(0), "tool", None, false, true, &current).unwrap();
    assert_eq!(daemon.home, ProcessHome::Daemon);
    assert_eq!(daemon.name, "tool");
}
