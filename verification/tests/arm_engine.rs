use closure_ffi::safe_jit::arm::{judge, try_reloc_thunk_template};
use closure_ffi::safe_jit::arm_util::encoding_arm::{ARM_INS_LDR, ARM_INS_LDRB};
use closure_ffi::safe_jit::arm_util::Stepped;
use closure_ffi::safe_jit::disasm::{Decoded, ARM_CC_AL, ARM_INS_B, ARM_REG_PC};
use closure_ffi::safe_jit::{try_reloc_thunk_template as reloc_for, Arch, JitError};
use std::borrow::Cow;

const NOP: u32 = 0xe1a0_0000; // MOV R0, R0
const BX_R12: u32 = 0xe12f_ff1c;
const MAGIC: u32 = 0xe7fd_eafd;
const THUMB_MAGIC: u32 = 0xde2a_de2a;

fn words(words: &[u32]) -> Vec<u8> {
    words.iter().flat_map(|w| w.to_le_bytes()).collect()
}

fn halves(halves: &[u16]) -> Vec<u8> {
    halves.iter().flat_map(|h| h.to_le_bytes()).collect()
}

/// `LDR Rreg, [PC, #disp]`, where `disp` counts from eight bytes after the instruction
fn ldr(reg: u32, disp: i32) -> u32 {
    if disp >= 0 {
        0xe59f_0000 | reg << 12 | disp as u32
    } else {
        0xe51f_0000 | reg << 12 | (-disp) as u32
    }
}

/// `prefix`, then `LDR R0, marker`, `LDR R12, marker + 4`, `BX R12`, the marker and
/// the slot for the way back. Gives the template and the marker's offset.
fn template(prefix: &[u32]) -> (Vec<u8>, usize) {
    let at = prefix.len() * 4;
    let magic = at + 12;
    let mut code = words(prefix);
    code.extend(words(&[ldr(0, 4), ldr(12, 4), BX_R12, MAGIC, 0]));
    (code, magic)
}

/// The same in Thumb, with narrow loads: `LDR R0, marker`, `LDR R1, marker + 4`,
/// `BX R1`, padding to a multiple of four.
fn thumb_template(prefix: &[u16]) -> (Vec<u8>, usize) {
    let at = prefix.len() * 2;
    let magic = (at + 6 + 3) / 4 * 4;
    let pc = |at: usize| (at + 4) / 4 * 4;
    let mut code = halves(prefix);
    code.extend(halves(&[
        0x4800 | ((magic - pc(at)) / 4) as u16,
        0x4900 | ((magic + 4 - pc(at + 2)) / 4) as u16,
        0x4708,
    ]));
    code.resize(magic, 0);
    code.extend_from_slice(&THUMB_MAGIC.to_le_bytes());
    code.extend_from_slice(&[0; 4]);
    (code, magic)
}

#[test]
fn arm_a_prefix_that_does_not_depend_on_its_address_stays() {
    // PUSH {R4, LR}; ADD R1, R1, #1
    let (code, magic) = template(&[0xe92d_4010, 0xe281_1001]);
    let reloc =
        try_reloc_thunk_template(false, &code, 0x1_0000, magic).expect("nothing to rewrite");
    assert_eq!(reloc.magic_offset, magic);
    match reloc.thunk {
        Cow::Borrowed(bytes) => assert_eq!(bytes, code.as_slice()),
        Cow::Owned(_) => panic!("copied without need"),
    }
}

#[test]
fn arm_adr_becomes_a_load_from_the_pool() {
    // ADD R1, PC, #0x100
    let (code, magic) = template(&[0xe28f_1c01]);
    assert_eq!((code.len(), magic), (24, 16));
    let pc: u32 = 0x1_0000;
    let reloc = try_reloc_thunk_template(false, &code, pc, magic).expect("the pool is in reach");
    let thunk = reloc.thunk.into_owned();
    // the pool lies at 24, the program counter of the load reads 8
    let mut expected = words(&[ldr(1, 16)]);
    expected.extend_from_slice(&code[4..]);
    expected.extend_from_slice(&(pc + 0x108).to_le_bytes());
    assert_eq!(thunk, expected);
    assert_eq!(reloc.magic_offset, 16);
}

#[test]
fn arm_a_literal_load_becomes_a_load_through_the_register() {
    // LDR R3, [PC, #0x40]; NOP; LDRB R2, [PC, #-4]
    let (code, magic) = template(&[ldr(3, 0x40), NOP, 0xe55f_2004]);
    assert_eq!((code.len(), magic), (32, 24));
    let pc: u32 = 0x1_0000;
    let reloc = try_reloc_thunk_template(false, &code, pc, magic).expect("the pool is in reach");
    let thunk = reloc.thunk.into_owned();
    assert_eq!(reloc.magic_offset, 32);
    let mut expected = words(&[
        ldr(3, 40 - 8),
        0xe593_3000, // LDR R3, [R3]
        NOP,
        ldr(2, 44 - 12 - 8),
        0xe552_2000, // LDRB R2, [R2, #-0]
    ]);
    expected.extend_from_slice(&code[12..]);
    expected.extend_from_slice(&(pc + 0x48).to_le_bytes());
    expected.extend_from_slice(&(pc + 8 + 8 - 4).to_le_bytes());
    assert_eq!(thunk, expected);
}

#[test]
fn arm_a_branch_forward_is_followed() {
    // B +8 over a word that is no instruction
    let (code, magic) = template(&[0xea00_0000, 0xffff_ffff]);
    let reloc = try_reloc_thunk_template(false, &code, 0x1_0000, magic).expect("followed");
    assert_eq!(reloc.magic_offset, magic);
    assert!(matches!(reloc.thunk, Cow::Borrowed(_)));
}

#[test]
fn arm_other_branches_are_refused() {
    // B to itself, B beyond the template, BNE +8
    for word in [0xeaff_fffe, 0xea00_0100, 0x1a00_0000] {
        let (code, magic) = template(&[NOP, word, NOP]);
        assert!(
            matches!(
                try_reloc_thunk_template(false, &code, 0x1_0000, magic),
                Err(JitError::UnsupportedControlFlow)
            ),
            "{word:08x}"
        );
    }
}

#[test]
fn arm_instructions_that_cannot_be_moved_are_refused() {
    // BL, BX LR, MOV PC, LR, SVC 0, ADD R0, PC, R1, LDRNE R0, [PC, #4]
    for word in [0xeb00_0000, 0xe12f_ff1e, 0xe1a0_f00e, 0xef00_0000, 0xe08f_0001, 0x159f_0004] {
        let (code, magic) = template(&[NOP, word]);
        assert!(
            matches!(
                try_reloc_thunk_template(false, &code, 0x1_0000, magic),
                Err(JitError::UnsupportedInstruction)
            ),
            "{word:08x}"
        );
    }
}

#[test]
fn arm_a_template_that_never_reads_the_marker_has_no_end() {
    let code = words(&[NOP, NOP, NOP]);
    assert!(matches!(
        try_reloc_thunk_template(false, &code, 0, 8),
        Err(JitError::NoThunkAsm)
    ));
    assert!(matches!(try_reloc_thunk_template(false, &[], 0, 0), Err(JitError::NoThunkAsm)));
    assert!(matches!(try_reloc_thunk_template(true, &[], 0, 0), Err(JitError::NoThunkAsm)));
}

#[test]
fn arm_bytes_that_are_no_instruction_are_refused() {
    let (code, magic) = template(&[NOP, 0xffff_ffff]);
    assert!(matches!(
        try_reloc_thunk_template(false, &code, 0x1_0000, magic),
        Err(JitError::InvalidInstruction)
    ));
    // half a Thumb instruction
    assert!(matches!(
        try_reloc_thunk_template(true, &[0x00], 0x1_0000, 8),
        Err(JitError::InvalidInstruction)
    ));
}

#[test]
fn thumb_a_prefix_that_does_not_depend_on_its_address_stays() {
    // PUSH {R4, LR}; ADDS R1, #1; NOP
    let (code, magic) = thumb_template(&[0xb510, 0x3101, 0xbf00]);
    let reloc = try_reloc_thunk_template(true, &code, 0x1_0000, magic).expect("nothing to rewrite");
    assert_eq!(reloc.magic_offset, magic);
    assert!(matches!(reloc.thunk, Cow::Borrowed(_)));
    let reloc = reloc_for(Arch::Thumb, &code, 0xffff_0001_0000, magic).expect("nothing to rewrite");
    assert_eq!(reloc.magic_offset, magic);
}

#[test]
fn thumb_rewrites_move_the_marker() {
    // ADR R1, #8 (narrow); LDR R2, [PC, #16] (narrow)
    let (code, magic) = thumb_template(&[0xa102, 0x4a04]);
    assert_eq!((code.len(), magic), (20, 12));
    let pc: u32 = 0x1_0000;
    let reloc = try_reloc_thunk_template(true, &code, pc, magic).expect("the pool is in reach");
    let thunk = reloc.thunk.into_owned();
    // the ADR has grown by two bytes, the load by four
    assert_eq!(reloc.magic_offset, 18);
    assert_eq!(thunk[18..22], THUMB_MAGIC.to_le_bytes());
    // LDR.W R1, pool; LDR.W R2, pool + 4; LDR R2, [R2]; the rest; the pool
    assert_eq!(thunk.len(), 26 + 8);
    assert_eq!(thunk[..2], [0xdf, 0xf8]);
    assert_eq!(thunk[3], 0x10);
    assert_eq!(thunk[4..6], [0xdf, 0xf8]);
    assert_eq!(thunk[7], 0x20);
    assert_eq!(thunk[8..10], [0x12, 0x68]);
    assert_eq!(thunk[10..26], code[4..]);
    assert_eq!(thunk[26..30], (pc + 4 + 8).to_le_bytes());
    assert_eq!(thunk[30..34], (pc + 4 + 16).to_le_bytes());
    // the marker at 18 is brought in line where the adapter stands: two bytes above a
    // word. There the load at 0 reads from 4 bytes above the adapter's start, the load
    // at 4 from 8, and the pool entries lie 28 and 32 bytes above it.
    assert_eq!(thunk[2] as usize, 28 - 4);
    assert_eq!(thunk[6] as usize, 32 - 8);
    // wherever the adapter stands with its marker in line, each load reads its entry
    for base in [2u32, 6, 0x1_0002, 0x7fff_fffe, 0xffff_fff2] {
        assert_eq!(base.wrapping_add(18) % 4, 0);
        for (at, entry) in [(0u32, 26u32), (4, 30)] {
            let imm = thunk[at as usize + 2] as u32 | (thunk[at as usize + 3] as u32 & 0xf) << 8;
            let reads = (base.wrapping_add(at + 4) & !3).wrapping_add(imm);
            assert_eq!(reads, base.wrapping_add(entry));
        }
    }
}

fn decoded(id: u32, len: usize, groups: &[u8]) -> Decoded {
    Decoded { id, len, groups: groups.to_vec() }
}

fn regs(read: &[u16], write: &[u16]) -> Option<(Vec<u16>, Vec<u16>)> {
    Some((read.to_vec(), write.to_vec()))
}

#[test]
fn arm_instructions_are_judged_by_what_the_disassembler_tells() {
    let pc = 0x1_0000;
    let nop = NOP.to_le_bytes();
    let always = Some((ARM_CC_AL, None));
    // an instruction that does not touch the program counter stays
    assert!(matches!(
        judge(false, &decoded(200, 4, &[150]), &regs(&[1], &[2]), always, &nop, pc, 8, 64, 32),
        Stepped::Next(12)
    ));
    // one that writes it, or belongs to a group that cannot be moved, is refused
    assert!(matches!(
        judge(false, &decoded(200, 4, &[]), &regs(&[], &[ARM_REG_PC]), always, &nop, pc, 8, 64, 32),
        Stepped::Stop(JitError::UnsupportedInstruction)
    ));
    assert!(matches!(
        judge(false, &decoded(200, 4, &[2]), &regs(&[], &[]), always, &nop, pc, 8, 64, 32),
        Stepped::Stop(JitError::UnsupportedInstruction)
    ));
    assert!(matches!(
        judge(false, &decoded(200, 4, &[]), &None, always, &nop, pc, 8, 64, 32),
        Stepped::Stop(JitError::UnsupportedInstruction)
    ));
    // an ADR is rewritten even where the program counter is not told among its registers
    let adr = 0xe28f_1c01u32.to_le_bytes();
    match judge(false, &decoded(4, 4, &[]), &regs(&[], &[1]), always, &adr, pc, 8, 64, 32) {
        Stepped::Rewritten(fix) => {
            assert_eq!((fix.at, fix.len, fix.reg, fix.target), (8, 4, 1, 0x1_0110));
            assert!(fix.follow.is_empty());
        }
        _ => panic!("ADR is rewritten"),
    }
    // one that reads it must be an unconditional ADR or literal load
    assert!(matches!(
        judge(false, &decoded(200, 4, &[]), &regs(&[ARM_REG_PC], &[]), always, &nop, pc, 8, 64, 32),
        Stepped::Stop(JitError::UnsupportedInstruction)
    ));
    let load = ldr(3, 0x10).to_le_bytes();
    let reads_pc = regs(&[ARM_REG_PC], &[3]);
    assert!(matches!(
        judge(
            false,
            &decoded(ARM_INS_LDR, 4, &[]),
            &reads_pc,
            Some((0, None)),
            &load,
            pc,
            8,
            64,
            32
        ),
        Stepped::Stop(JitError::UnsupportedInstruction)
    ));
    assert!(matches!(
        judge(false, &decoded(ARM_INS_LDR, 4, &[]), &reads_pc, None, &load, pc, 8, 64, 32),
        Stepped::Stop(JitError::UnsupportedInstruction)
    ));
    // the load of the marker at 8 + 8 + 0x10 ends the prefix
    assert!(matches!(
        judge(false, &decoded(ARM_INS_LDR, 4, &[]), &reads_pc, always, &load, pc, 8, 64, 32),
        Stepped::Marker
    ));
    match judge(false, &decoded(ARM_INS_LDRB, 4, &[]), &reads_pc, always, &load, pc, 8, 64, 36) {
        Stepped::Rewritten(fix) => {
            assert_eq!((fix.at, fix.len, fix.reg, fix.target), (8, 4, 3, 0x1_0020));
            assert_eq!(fix.follow, 0xe593_3000u32.to_le_bytes());
        }
        _ => panic!("a literal load is rewritten"),
    }
    // a branch is followed forward within the template where it is unconditional
    let b = decoded(ARM_INS_B, 4, &[1, 7]);
    let to = |target: i32, cc: u32| Some((cc, Some(target)));
    assert!(matches!(
        judge(false, &b, &None, to(0x1_0010, ARM_CC_AL), &nop, pc, 8, 64, 32),
        Stepped::Next(16)
    ));
    assert!(matches!(
        judge(false, &b, &None, to(0x1_000c, ARM_CC_AL), &nop, pc, 8, 64, 32),
        Stepped::Next(12)
    ));
    let refused = [(0x1_0008, ARM_CC_AL), (0x1_0040, ARM_CC_AL), (0x1_0010, 1), (-8, ARM_CC_AL)];
    for (target, cc) in refused {
        assert!(matches!(
            judge(false, &b, &None, to(target, cc), &nop, pc, 8, 64, 32),
            Stepped::Stop(JitError::UnsupportedControlFlow)
        ));
    }
    assert!(matches!(
        judge(false, &b, &None, Some((ARM_CC_AL, None)), &nop, pc, 8, 64, 32),
        Stepped::Stop(JitError::UnsupportedControlFlow)
    ));
    // an instruction without bytes, or with more than the template has, is none
    assert!(matches!(
        judge(false, &decoded(200, 0, &[]), &regs(&[], &[]), always, &[], pc, 8, 64, 32),
        Stepped::Stop(JitError::InvalidInstruction)
    ));
    assert!(matches!(
        judge(false, &decoded(200, 4, &[]), &regs(&[], &[]), always, &nop[..2], pc, 62, 64, 32),
        Stepped::Stop(JitError::InvalidInstruction)
    ));
}

#[test]
fn thumb_a_read_of_the_program_counter_under_an_it_is_refused() {
    // IT EQ; LDREQ.W R0, [PC, #16]
    // IT EQ; LDREQ R2, [PC, #16]
    // IT EQ; ADREQ R1, #8
    // ITT EQ; ADDEQ R1, #1; LDREQ R2, [PC, #16]
    let prefixes: [&[u16]; 4] = [
        &[0xbf08, 0xf8df, 0x0010],
        &[0xbf08, 0x4a04],
        &[0xbf08, 0xa102],
        &[0xbf04, 0x3101, 0x4a04],
    ];
    for prefix in prefixes {
        let (code, magic) = thumb_template(prefix);
        assert!(
            matches!(
                try_reloc_thunk_template(true, &code, 0x1_0000, magic),
                Err(JitError::UnsupportedInstruction)
            ),
            "{prefix:04x?}"
        );
    }
}

#[test]
fn thumb_an_it_over_what_stays_is_kept() {
    // IT EQ; ADDEQ R1, #1
    let (code, magic) = thumb_template(&[0xbf08, 0x3101]);
    let reloc = try_reloc_thunk_template(true, &code, 0x1_0000, magic).expect("nothing to rewrite");
    assert_eq!(reloc.magic_offset, magic);
    assert!(matches!(reloc.thunk, Cow::Borrowed(_)));
    // IT EQ; ADDEQ R1, #1; LDR R2, [PC, #16]; NOP: the load lies behind the block
    let (code, magic) = thumb_template(&[0xbf08, 0x3101, 0x4a04, 0xbf00]);
    let reloc = try_reloc_thunk_template(true, &code, 0x1_0000, magic).expect("in reach");
    assert_eq!(reloc.magic_offset, magic + 4);
    let thunk = reloc.thunk.into_owned();
    assert_eq!(thunk[..4], code[..4]);
    assert_eq!(thunk[4..6], [0xdf, 0xf8]);
    assert_eq!(thunk[8..10], [0x12, 0x68]);
    assert_eq!(thunk[10..code.len() + 4], code[6..]);
}

#[test]
fn thumb_a_branch_forward_is_followed() {
    // B +4 over a halfword that is no instruction
    let (code, magic) = thumb_template(&[0xe000, 0xffff]);
    let reloc = try_reloc_thunk_template(true, &code, 0x1_0000, magic).expect("followed");
    assert_eq!(reloc.magic_offset, magic);
    assert!(matches!(reloc.thunk, Cow::Borrowed(_)));
    // the same before a load to rewrite, which the scan reads anew from the target
    let (code, magic) = thumb_template(&[0xe000, 0xffff, 0x4a04, 0xbf00]);
    let reloc = try_reloc_thunk_template(true, &code, 0x1_0000, magic).expect("in reach");
    assert_eq!(reloc.magic_offset, magic + 4);
}
