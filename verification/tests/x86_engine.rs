use closure_ffi::safe_jit::iced::{Insn, Jump};
use closure_ffi::safe_jit::x86::{judge, pair, try_reloc_thunk_template, CallPop, Verdict};
use closure_ffi::safe_jit::JitError;
use std::borrow::Cow;

/// `prefix`, padded to a multiple of eight, then `MOV EAX, 0xC0DEC0DE`,
/// `MOV ECX, imm32`, `JMP ECX`. The marker would follow four bytes after the
/// template. Gives the template and the marker's offset.
fn template(prefix: &[u8]) -> (Vec<u8>, usize) {
    let mut code = prefix.to_vec();
    code.resize((code.len() + 7) / 8 * 8, 0x90);
    let magic = code.len() + 16;
    code.extend_from_slice(&[0xb8, 0xde, 0xc0, 0xde, 0xc0]);
    code.extend_from_slice(&[0xb9, 0x00, 0x10, 0x40, 0x00]);
    code.extend_from_slice(&[0xff, 0xe1]);
    (code, magic)
}

#[test]
fn x86_a_prefix_without_the_idiom_stays() {
    // PUSH EBP; MOV EBP, ESP
    let (code, magic) = template(&[0x55, 0x89, 0xe5]);
    let reloc = try_reloc_thunk_template(&code, 0x40_1000, magic).expect("nothing to rewrite");
    assert_eq!(reloc.magic_offset, magic);
    match reloc.thunk {
        Cow::Borrowed(bytes) => assert_eq!(bytes, code.as_slice()),
        Cow::Owned(_) => panic!("copied without need"),
    }
}

#[test]
fn a_call_to_the_next_instruction_with_a_pop_becomes_a_load() {
    // CALL +0; POP EBX; ADD EBX, 0x1234
    let (code, magic) =
        template(&[0xe8, 0x00, 0x00, 0x00, 0x00, 0x5b, 0x81, 0xc3, 0x34, 0x12, 0x00, 0x00]);
    assert_eq!(magic, 32);
    let reloc = try_reloc_thunk_template(&code, 0x40_1000, magic).expect("the idiom is known");
    let thunk = reloc.thunk.into_owned();
    // MOV EBX, 0x401005
    assert_eq!(thunk[..5], [0xbb, 0x05, 0x10, 0x40, 0x00]);
    assert_eq!(thunk[5..], code[6..]);
    assert_eq!(reloc.magic_offset, 31);
}

#[test]
fn each_pair_is_replaced() {
    // NOP; CALL +0; POP EAX; NOP; CALL +0; POP EDI
    let (code, magic) = template(&[
        0x90, 0xe8, 0x00, 0x00, 0x00, 0x00, 0x58, 0x90, 0xe8, 0x00, 0x00, 0x00, 0x00, 0x5f,
    ]);
    let reloc = try_reloc_thunk_template(&code, 0x1000, magic).expect("the idiom is known");
    let thunk = reloc.thunk.into_owned();
    let mut expected = vec![0x90, 0xb8, 0x06, 0x10, 0x00, 0x00, 0x90, 0xbf, 0x0d, 0x10, 0x00, 0x00];
    expected.extend_from_slice(&code[14..]);
    assert_eq!(thunk, expected);
    assert_eq!(reloc.magic_offset, magic - 2);
}

#[test]
fn x86_other_control_transfers_are_refused() {
    // CALL +0 without POP
    let (code, magic) = template(&[0xe8, 0x00, 0x00, 0x00, 0x00, 0x90]);
    assert!(matches!(
        try_reloc_thunk_template(&code, 0, magic),
        Err(JitError::UnsupportedControlFlow)
    ));
    // CALL +1; POP EAX
    let (code, magic) = template(&[0xe8, 0x01, 0x00, 0x00, 0x00, 0x58]);
    assert!(matches!(
        try_reloc_thunk_template(&code, 0, magic),
        Err(JitError::UnsupportedControlFlow)
    ));
    // RET
    let (code, magic) = template(&[0xc3]);
    assert!(matches!(
        try_reloc_thunk_template(&code, 0, magic),
        Err(JitError::UnsupportedControlFlow)
    ));
    // JMP to itself, JMP beyond the template, JMP EAX, JE +2
    for jump in [[0xeb, 0xfe], [0xeb, 0x7f], [0xff, 0xe0], [0x74, 0x02]] {
        let (code, magic) = template(&[0x90, jump[0], jump[1], 0x90, 0x90]);
        assert!(
            matches!(
                try_reloc_thunk_template(&code, 0x1000, magic),
                Err(JitError::UnsupportedControlFlow)
            ),
            "{jump:02x?}"
        );
    }
    // HLT is privileged
    let (code, magic) = template(&[0xf4]);
    assert!(matches!(
        try_reloc_thunk_template(&code, 0, magic),
        Err(JitError::UnsupportedInstruction)
    ));
}

#[test]
fn x86_a_jump_forward_is_followed() {
    // JMP +2 over two bytes that are no instruction; CALL +0; POP EAX
    let (code, magic) =
        template(&[0xeb, 0x02, 0xff, 0xff, 0xe8, 0x00, 0x00, 0x00, 0x00, 0x58]);
    let reloc = try_reloc_thunk_template(&code, 0x1000, magic).expect("the idiom is known");
    let thunk = reloc.thunk.into_owned();
    assert_eq!(thunk[..4], code[..4]);
    // MOV EAX, 0x1009
    assert_eq!(thunk[4..9], [0xb8, 0x09, 0x10, 0x00, 0x00]);
    assert_eq!(thunk[9..], code[10..]);
    assert_eq!(reloc.magic_offset, magic - 1);
}

#[test]
fn x86_bytes_that_are_no_instruction_are_refused() {
    let (code, magic) = template(&[0xff, 0xff]);
    assert!(matches!(
        try_reloc_thunk_template(&code, 0, magic),
        Err(JitError::InvalidInstruction)
    ));
}

#[test]
fn x86_a_template_that_never_reaches_the_marker_has_no_end() {
    let code = [0x90u8; 24];
    assert!(matches!(try_reloc_thunk_template(&code, 0, 40), Err(JitError::NoThunkAsm)));
    assert!(matches!(try_reloc_thunk_template(&code, 0, 3), Err(JitError::NoThunkAsm)));
    assert!(matches!(try_reloc_thunk_template(&[], 0, 16), Err(JitError::NoThunkAsm)));
    assert!(try_reloc_thunk_template(&code, 0, 39).is_ok());
    // where the marker is said to lie elsewhere, the jump of the template is met
    let (code, magic) = template(&[0x90]);
    assert!(matches!(
        try_reloc_thunk_template(&code, 0, magic + 1),
        Err(JitError::UnsupportedControlFlow)
    ));
}

fn branch(target32: u32, next32: u32) -> Jump {
    Jump { target: target32 as u64, near: false, target32, next32 }
}

fn insn(len: usize, flow: u32, code: u32, op0: u32) -> Insn {
    Insn { len, invalid: false, flow, ip_rel: false, mem_disp: 0, op0, code, privileged: false }
}

#[test]
fn x86_instructions_are_judged_by_what_the_decoder_tells() {
    let ip = 0x1000;
    let refused = Verdict::Fail(JitError::UnsupportedControlFlow);
    assert_eq!(judge(insn(2, 0, 1, 0), branch(0, 0), 4, 20, ip), Verdict::Next(6));
    assert_eq!(
        judge(Insn { privileged: true, ..insn(2, 0, 1, 0) }, branch(0, 0), 4, 20, ip),
        Verdict::Fail(JitError::UnsupportedInstruction)
    );
    assert_eq!(
        judge(insn(5, 5, 692, 0), branch(0x1009, 0x1009), 4, 20, ip),
        Verdict::Call { after: 9, target_ip: 0x1009 }
    );
    // a call elsewhere, a call in another form, a call at the end of the template
    assert_eq!(judge(insn(5, 5, 692, 0), branch(0x2000, 0x1009), 4, 20, ip), refused);
    assert_eq!(judge(insn(5, 5, 691, 0), branch(0x1009, 0x1009), 4, 20, ip), refused);
    assert_eq!(judge(insn(5, 5, 692, 0), branch(0x1009, 0x1009), 15, 20, ip), refused);
    assert_eq!(judge(insn(1, 4, 100, 0), branch(0, 0), 4, 20, ip), refused);
    // a jump forward within the template is followed
    let to = |target: u32| Jump { target: target as u64, near: true, target32: target, next32: 0 };
    assert_eq!(judge(insn(2, 1, 300, 0), to(0x1009), 4, 20, ip), Verdict::Next(9));
    assert_eq!(judge(insn(2, 1, 300, 0), to(0x1006), 4, 20, ip), Verdict::Next(6));
    assert_eq!(judge(insn(2, 1, 300, 0), to(0x1004), 4, 20, ip), refused);
    assert_eq!(judge(insn(2, 1, 300, 0), to(0x1014), 4, 20, ip), refused);
    assert_eq!(judge(insn(2, 3, 300, 0), to(0x1009), 4, 20, ip), refused);
    assert_eq!(judge(insn(2, 1, 300, 0), branch(0x1009, 0x1006), 4, 20, ip), refused);
    assert_eq!(
        judge(Insn { invalid: true, ..insn(1, 0, 0, 0) }, branch(0, 0), 4, 20, ip),
        Verdict::Fail(JitError::InvalidInstruction)
    );
    assert_eq!(
        judge(insn(17, 0, 1, 0), branch(0, 0), 4, 20, ip),
        Verdict::Fail(JitError::InvalidInstruction)
    );
}

#[test]
fn a_call_is_paired_with_a_pop_of_a_register() {
    assert_eq!(
        pair(insn(1, 0, 128, 40), 4, 9, 0x1009, 20),
        Ok(CallPop { offset: 4, len: 6, target_ip: 0x1009, register: 40 })
    );
    assert_eq!(pair(insn(1, 0, 129, 40), 4, 9, 0x1009, 20), Err(JitError::UnsupportedControlFlow));
    assert_eq!(pair(insn(0, 0, 128, 40), 4, 9, 0x1009, 20), Err(JitError::UnsupportedControlFlow));
    assert_eq!(pair(insn(12, 0, 128, 40), 4, 9, 0x1009, 20), Err(JitError::UnsupportedControlFlow));
    assert_eq!(pair(insn(1, 0, 128, 256), 4, 9, 0x1009, 20), Err(JitError::UnsupportedControlFlow));
}
