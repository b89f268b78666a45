use closure_ffi::arch::{
    align, code_address, find_magic, first_offset, is_magic, magic, place, pointer_bytes,
    probe, template_size, Action, AllocatedThunk, Begin, Event, Materializer, Probe,
};
use closure_ffi::jit_alloc::{JitAllocError, ProtectJitAccess};
use closure_ffi::safe_jit::{Arch, JitError};

const ALL: [Arch; 5] = [Arch::X86, Arch::X86_64, Arch::AArch64, Arch::Arm, Arch::Thumb];

#[test]
fn markers_are_what_the_templates_hold() {
    assert_eq!(magic(Arch::X86_64), [0xf0u8; 8]);
    assert_eq!(magic(Arch::X86), [[0xf0u8; 14].as_slice(), &[0xff, 0xf0]].concat());
    assert_eq!(magic(Arch::AArch64), 0x0000_dead_0000_dead_u64.to_le_bytes());
    assert_eq!(magic(Arch::Arm), 0xe7fd_eafd_u32.to_le_bytes());
    assert_eq!(magic(Arch::Thumb), 0xde2a_de2a_u32.to_le_bytes());
    assert_eq!(ALL.map(align), [4, 8, 8, 4, 4]);
    assert_eq!(ALL.map(pointer_bytes), [4, 8, 8, 4, 4]);
    assert!(is_magic(Arch::Arm, &[0xfd, 0xea, 0xfd, 0xe7]));
    assert!(!is_magic(Arch::Arm, &[0xfd, 0xea, 0xfd, 0xe6]));
    assert!(!is_magic(Arch::Arm, &[0xfd, 0xea, 0xfd]));
    assert!(!is_magic(Arch::Thumb, &[0xfd, 0xea, 0xfd, 0xe7]));
}

#[test]
fn the_marker_is_found_at_every_aligned_offset() {
    for arch in ALL {
        let step = align(arch);
        let pattern = magic(arch);
        for base in 0..step {
            for slot in 0..=2 * step {
                // put the marker `slot` bytes above the first aligned address
                let at = first_offset(arch, base) + slot / step * step;
                let mut memory = vec![0x90u8; at + pattern.len() + 3];
                memory[at..at + pattern.len()].copy_from_slice(&pattern);
                assert_eq!(find_magic(arch, &memory, base), Some(at));
            }
        }
    }
}

#[test]
fn a_marker_that_is_not_aligned_is_not_found() {
    let pattern = magic(Arch::AArch64);
    let mut memory = vec![0u8; 64];
    memory[12..20].copy_from_slice(&pattern);
    assert_eq!(find_magic(Arch::AArch64, &memory, 0), None);
    assert_eq!(find_magic(Arch::AArch64, &memory, 4), Some(12));
    memory[24..32].copy_from_slice(&pattern);
    assert_eq!(find_magic(Arch::AArch64, &memory, 0), Some(24));
    assert_eq!(find_magic(Arch::AArch64, &memory[..31], 0), None);
    assert_eq!(find_magic(Arch::AArch64, &[], 0), None);
}

#[test]
fn a_probe_finds_the_marker_or_tells_where_to_look_next() {
    assert_eq!(probe(Arch::Arm, 8, &[0xfd, 0xea, 0xfd, 0xe7]), Probe::Found(8));
    assert_eq!(probe(Arch::Arm, 8, &[0xfd, 0xea, 0xfd, 0xe6]), Probe::Next(12));
    assert_eq!(probe(Arch::AArch64, 8, &[0xfd, 0xea, 0xfd, 0xe7]), Probe::Next(16));
    assert_eq!(probe(Arch::X86, 8, &[0xf0; 8]), Probe::Next(12));
    assert_eq!(probe(Arch::X86_64, 8, &[0xf0; 8]), Probe::Found(8));
    assert_eq!(probe(Arch::X86_64, usize::MAX - 7, &[0; 8]), Probe::End);
    assert_eq!(probe(Arch::X86_64, usize::MAX - 8, &[0; 8]), Probe::Next(usize::MAX));
    // the search by probes is the search of `find_magic`
    let mut memory = vec![0x90u8; 40];
    memory[29..37].copy_from_slice(&magic(Arch::X86_64));
    let mut offset = first_offset(Arch::X86_64, 0x1003);
    assert_eq!(offset, 5);
    let found = loop {
        match probe(Arch::X86_64, offset, &memory[offset..offset + 8]) {
            Probe::Found(at) => break at,
            Probe::Next(next) => offset = next,
            Probe::End => panic!("the marker is there"),
        }
    };
    assert_eq!(found, 29);
    assert_eq!(Some(found), find_magic(Arch::X86_64, &memory[..], 0x1003));
}

#[test]
fn the_first_of_two_markers_is_found() {
    let pattern = magic(Arch::Thumb);
    let mut memory = vec![0u8; 32];
    memory[8..12].copy_from_slice(&pattern);
    memory[16..20].copy_from_slice(&pattern);
    assert_eq!(find_magic(Arch::Thumb, &memory, 0x1000), Some(8));
}

#[test]
fn templates_end_after_their_slots() {
    assert_eq!(template_size(Arch::X86, 24), Some(20));
    assert_eq!(template_size(Arch::X86, 3), None);
    assert_eq!(template_size(Arch::X86_64, 16), Some(32));
    assert_eq!(template_size(Arch::AArch64, 16), Some(32));
    assert_eq!(template_size(Arch::Arm, 12), Some(20));
    assert_eq!(template_size(Arch::Thumb, 12), Some(20));
    assert_eq!(template_size(Arch::Thumb, usize::MAX - 7), None);
}

#[test]
fn an_empty_payload_needs_no_adapter() {
    for arch in ALL {
        match AllocatedThunk::new(arch, 0x1235, 0) {
            Begin::InPlace(thunk) => {
                assert_eq!(thunk.thunk_ptr(), 0x1235);
                assert_eq!(thunk.into_release(), None);
            }
            Begin::Scan { .. } => panic!("nothing is to be built"),
        }
    }
}

#[test]
fn a_payload_asks_for_the_marker() {
    assert!(matches!(
        AllocatedThunk::new(Arch::X86_64, 0x1003, 8),
        Begin::Scan { addr: 0x1003, offset: 5 }
    ));
    assert!(matches!(
        AllocatedThunk::new(Arch::Arm, 0x1004, 8),
        Begin::Scan { addr: 0x1004, offset: 0 }
    ));
    // a pointer to Thumb code carries a tag in its lowest bit
    assert!(matches!(
        AllocatedThunk::new(Arch::Thumb, 0x1003, 8),
        Begin::Scan { addr: 0x1002, offset: 2 }
    ));
    assert_eq!(code_address(Arch::Thumb, 0x1001), 0x1000);
    assert_eq!(code_address(Arch::Arm, 0x1001), 0x1001);
}

#[test]
fn the_handle_gives_its_region_up_once() {
    let thunk = AllocatedThunk::owning(0x7000, 0x7004);
    assert_eq!(thunk.thunk_ptr(), 0x7004);
    assert_eq!(thunk.into_release(), Some(0x7000));
    assert_eq!(AllocatedThunk::borrowed(0x10).into_release(), None);
}

#[test]
fn the_adapter_is_placed_so_that_the_marker_is_aligned() {
    assert_eq!(place(Arch::X86_64, 0x7000, 16), 0);
    assert_eq!(place(Arch::X86_64, 0x7000, 30), 2);
    assert_eq!(place(Arch::X86_64, 0x7003, 30), 7);
    assert_eq!(place(Arch::Arm, 0x7003, 30), 3);
    assert_eq!(place(Arch::Thumb, 0x7000, 14), 2);
    assert_eq!(place(Arch::AArch64, usize::MAX, usize::MAX), 2);
}

/// `MOV RAX, [RIP + 9]`, `JMP [RIP + 11]`, padding, the marker in the slot for the
/// payload, and the slot for the way back.
fn x86_64_template() -> Vec<u8> {
    let mut code = vec![0x48, 0x8b, 0x05, 0x09, 0x00, 0x00, 0x00];
    code.extend_from_slice(&[0xff, 0x25, 0x0b, 0x00, 0x00, 0x00]);
    code.extend_from_slice(&[0xcc, 0xcc, 0xcc]);
    code.extend_from_slice(&magic(Arch::X86_64));
    code.extend_from_slice(&[0xf0, 0xf0, 0xf0, 0xf0, 0xf0, 0xf0, 0xff, 0xf0]);
    code
}

#[test]
fn the_marker_of_a_template_is_found_where_its_code_ends() {
    let template = x86_64_template();
    assert_eq!(find_magic(Arch::X86_64, &template, 0x40_1000), Some(16));
    assert_eq!(template_size(Arch::X86_64, 16), Some(template.len()));
}

#[test]
fn the_materializer_asks_for_each_step_in_turn() {
    let template = x86_64_template();
    let addr = 0x40_1000;
    let (mut m, action) = Materializer::new(Arch::X86_64, &template, addr, 16, 0xdead_beef)
        .expect("the template needs no rewriting");
    assert!(matches!(action, Action::Alloc { size: 39 }));
    // a report that does not fit changes nothing
    assert!(matches!(m.step(Event::Done), Action::Rejected));
    let action = m.step(Event::Allocated { rx: 0x7000_0003, rw: 0x9000_0003 });
    assert!(matches!(
        action,
        Action::Protect { ptr: 0x7000_0008, size: 32, access: ProtectJitAccess::ReadWrite }
    ));
    match m.step(Event::Done) {
        Action::Write { at, bytes } => {
            assert_eq!(at, 0x9000_0008);
            assert_eq!(bytes[..16], template[..16]);
            assert_eq!(bytes[16..24], 0xdead_beef_u64.to_le_bytes());
            assert_eq!(bytes[24..32], (addr as u64 + 32).to_le_bytes());
            assert_eq!(bytes.len(), 32);
        }
        _ => panic!("the adapter is to be written"),
    }
    assert!(matches!(m.step(Event::AllocFailed), Action::Rejected));
    assert!(matches!(
        m.step(Event::Done),
        Action::Protect { ptr: 0x7000_0008, size: 32, access: ProtectJitAccess::ReadExecute }
    ));
    assert!(matches!(m.step(Event::Done), Action::Flush { ptr: 0x7000_0008, size: 32 }));
    match m.step(Event::Done) {
        Action::Finish(thunk) => {
            assert_eq!(thunk.thunk_ptr(), 0x7000_0008);
            assert_eq!(thunk.into_release(), Some(0x7000_0003));
        }
        _ => panic!("the adapter is ready"),
    }
    assert!(matches!(m.step(Event::Done), Action::Rejected));
}

#[test]
fn a_failed_allocation_ends_the_materializer() {
    let template = x86_64_template();
    let (mut m, _) = Materializer::new(Arch::X86_64, &template, 0x40_1000, 16, 1).unwrap();
    assert!(matches!(m.step(Event::AllocFailed), Action::Fail(JitAllocError)));
    assert!(matches!(m.step(Event::Allocated { rx: 8, rw: 8 }), Action::Rejected));
}

#[test]
fn a_region_at_the_end_of_the_address_space_is_refused() {
    let template = x86_64_template();
    let (mut m, _) = Materializer::new(Arch::X86_64, &template, 0x40_1000, 16, 1).unwrap();
    assert!(matches!(
        m.step(Event::Allocated { rx: usize::MAX - 20, rw: 0x9000 }),
        Action::Rejected
    ));
    assert!(matches!(m.step(Event::Allocated { rx: 0x7000, rw: 0x9000 }), Action::Protect { .. }));
}

#[test]
fn a_region_whose_views_are_out_of_line_is_refused() {
    let template = x86_64_template();
    let (mut m, _) = Materializer::new(Arch::X86_64, &template, 0x40_1000, 16, 1).unwrap();
    assert!(matches!(m.step(Event::Allocated { rx: 0x1000, rw: 0x1004 }), Action::Rejected));
    // in line, the marker slot is aligned in both views
    assert!(matches!(
        m.step(Event::Allocated { rx: 0x1003, rw: 0x200b }),
        Action::Protect { ptr: 0x1008, size: 32, access: ProtectJitAccess::ReadWrite }
    ));
    assert!(matches!(m.step(Event::Done), Action::Write { at: 0x2010, .. }));
    // where pointers have four bytes, views four bytes apart are in line
    let halves: [u16; 4] = [0x4801, 0x4901, 0x4708, 0x0000];
    let mut template: Vec<u8> = halves.iter().flat_map(|h| h.to_le_bytes()).collect();
    template.extend_from_slice(&magic(Arch::Thumb));
    template.extend_from_slice(&[0; 4]);
    let (mut m, _) = Materializer::new(Arch::Thumb, &template, 0x1_0000, 8, 1).unwrap();
    assert!(matches!(m.step(Event::Allocated { rx: 0x1000, rw: 0x1002 }), Action::Rejected));
    assert!(matches!(m.step(Event::Allocated { rx: 0x1000, rw: 0x1004 }), Action::Protect { .. }));
}

#[test]
fn a_template_without_marker_instruction_is_refused() {
    let template = vec![0x90u8; 32];
    assert!(matches!(
        Materializer::new(Arch::X86_64, &template, 0x40_1000, 16, 1),
        Err(JitError::NoThunkAsm)
    ));
}

#[test]
fn the_adapter_of_a_relocated_template_has_its_slots_filled() {
    // AArch64: ADR X1, #0x100; LDR X16, marker; LDR X17, marker + 8; BR X17
    let words: [u32; 4] = [0x1000_0801, 0x5800_0070, 0x5800_0091, 0xd61f_0220];
    let mut template: Vec<u8> = words.iter().flat_map(|w| w.to_le_bytes()).collect();
    template.extend_from_slice(&magic(Arch::AArch64));
    template.extend_from_slice(&[0; 8]);
    let addr = 0x40_1000;
    let (mut m, action) =
        Materializer::new(Arch::AArch64, &template, addr, 16, 0x1122_3344_5566_7788)
            .expect("the pool is in reach");
    // 32 bytes of template and 8 of pool, and room to move them
    assert!(matches!(action, Action::Alloc { size: 47 }));
    assert!(matches!(
        m.step(Event::Allocated { rx: 0x7000_0000, rw: 0x9000_0000 }),
        Action::Protect { ptr: 0x7000_0000, size: 40, .. }
    ));
    match m.step(Event::Done) {
        Action::Write { at, bytes } => {
            assert_eq!(at, 0x9000_0000);
            assert_eq!(bytes[..4], 0x5800_0101u32.to_le_bytes());
            assert_eq!(bytes[4..16], template[4..16]);
            assert_eq!(bytes[16..24], 0x1122_3344_5566_7788u64.to_le_bytes());
            assert_eq!(bytes[24..32], (addr as u64 + 32).to_le_bytes());
            assert_eq!(bytes[32..], (addr as u64 + 0x100).to_le_bytes());
        }
        _ => panic!("the adapter is to be written"),
    }
}

#[test]
fn thumb_pointers_carry_their_tag() {
    // LDR R0, marker; LDR R1, marker + 4; BX R1; padding; the marker; the way back
    let halves: [u16; 4] = [0x4801, 0x4901, 0x4708, 0x0000];
    let mut template: Vec<u8> = halves.iter().flat_map(|h| h.to_le_bytes()).collect();
    template.extend_from_slice(&magic(Arch::Thumb));
    template.extend_from_slice(&[0; 4]);
    let ptr = 0x2_0001;
    let addr = code_address(Arch::Thumb, ptr);
    assert_eq!(find_magic(Arch::Thumb, &template, addr), Some(8));
    let (mut m, action) = Materializer::new(Arch::Thumb, &template, addr, 8, 0xcafe_f00d)
        .expect("the template needs no rewriting");
    assert!(matches!(action, Action::Alloc { size: 19 }));
    assert!(matches!(
        m.step(Event::Allocated { rx: 0x7002, rw: 0x9002 }),
        Action::Protect { ptr: 0x7004, size: 16, .. }
    ));
    match m.step(Event::Done) {
        Action::Write { at, bytes } => {
            assert_eq!(at, 0x9004);
            assert_eq!(bytes[..8], template[..8]);
            assert_eq!(bytes[8..12], 0xcafe_f00du32.to_le_bytes());
            // the way back leads to the Thumb code after the slots
            assert_eq!(bytes[12..16], (0x2_0000u32 + 16 + 1).to_le_bytes());
        }
        _ => panic!("the adapter is to be written"),
    }
    assert!(matches!(m.step(Event::Done), Action::Protect { ptr: 0x7004, .. }));
    assert!(matches!(m.step(Event::Done), Action::Flush { ptr: 0x7004, size: 16 }));
    match m.step(Event::Done) {
        Action::Finish(thunk) => {
            assert_eq!(thunk.thunk_ptr(), 0x7005);
            assert_eq!(thunk.into_release(), Some(0x7002));
        }
        _ => panic!("the adapter is ready"),
    }
}

#[test]
fn on_x86_the_payload_goes_into_the_load() {
    // eight NOPs; MOV EAX, 0xC0DEC0DE; MOV ECX, imm32; JMP ECX
    let mut template = vec![0x90u8; 8];
    template.extend_from_slice(&[0xb8, 0xde, 0xc0, 0xde, 0xc0]);
    template.extend_from_slice(&[0xb9, 0x00, 0x10, 0x40, 0x00]);
    template.extend_from_slice(&[0xff, 0xe1]);
    assert_eq!(template_size(Arch::X86, 24), Some(template.len()));
    let (mut m, action) = Materializer::new(Arch::X86, &template, 0x40_1000, 24, 0x1234_5678)
        .expect("the template needs no rewriting");
    assert!(matches!(action, Action::Alloc { size: 23 }));
    m.step(Event::Allocated { rx: 0x7000, rw: 0x9000 });
    match m.step(Event::Done) {
        Action::Write { bytes, .. } => {
            assert_eq!(bytes[..9], template[..9]);
            assert_eq!(bytes[9..13], 0x1234_5678u32.to_le_bytes());
            assert_eq!(bytes[13..], template[13..]);
        }
        _ => panic!("the adapter is to be written"),
    }
}

#[test]
fn a_template_that_ends_before_its_slots_is_refused() {
    // the marker is said to lie at the very end of the template
    let mut template = vec![0x48, 0x8b, 0x05, 0x09, 0x00, 0x00, 0x00];
    template.resize(16, 0x90);
    assert!(matches!(
        Materializer::new(Arch::X86_64, &template, 0x40_1000, 16, 1),
        Err(JitError::NoThunkAsm)
    ));
}
