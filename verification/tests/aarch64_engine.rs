use closure_ffi::safe_jit::aarch64::{judge, try_reloc_thunk_template};
use closure_ffi::safe_jit::arm_util::Stepped;
use closure_ffi::safe_jit::JitError;
use std::borrow::Cow;

const NOP: u32 = 0xd503_201f;
const BR_X17: u32 = 0xd61f_0220;
const MAGIC: u64 = 0x0000_dead_0000_dead;

fn words(words: &[u32]) -> Vec<u8> {
    words.iter().flat_map(|w| w.to_le_bytes()).collect()
}

/// `LDR Xreg, #disp`
fn ldr(reg: u32, disp: i32) -> u32 {
    0x5800_0000 | (((disp / 4) as u32 & 0x7_ffff) << 5) | reg
}

/// `prefix`, then `LDR X16, marker`, `LDR X17, marker + 8`, `BR X17`, padding to a
/// multiple of eight, the marker and the slot for the way back. Gives the template
/// and the marker's offset.
fn template(prefix: &[u32]) -> (Vec<u8>, usize) {
    let at = prefix.len() * 4;
    let magic = (at + 12 + 7) / 8 * 8;
    let mut code = words(prefix);
    code.extend(words(&[
        ldr(16, (magic - at) as i32),
        ldr(17, (magic + 8 - at - 4) as i32),
        BR_X17,
    ]));
    code.resize(magic, 0);
    code.extend_from_slice(&MAGIC.to_le_bytes());
    code.extend_from_slice(&[0; 8]);
    (code, magic)
}

#[test]
fn aarch64_a_prefix_that_does_not_depend_on_its_address_stays() {
    // STP X29, X30, [SP, #-16]!; MOV X29, SP
    let (code, magic) = template(&[0xa9bf_7bfd, 0x9100_03fd]);
    let reloc = try_reloc_thunk_template(&code, 0x40_1000, magic).expect("nothing to rewrite");
    assert_eq!(reloc.magic_offset, magic);
    match reloc.thunk {
        Cow::Borrowed(bytes) => assert_eq!(bytes, code.as_slice()),
        Cow::Owned(_) => panic!("copied without need"),
    }
}

#[test]
fn aarch64_adr_becomes_a_load_from_the_pool() {
    // ADR X1, #0x100
    let (code, magic) = template(&[0x1000_0801]);
    assert_eq!((code.len(), magic), (32, 16));
    let pc: u64 = 0x40_1000;
    let reloc = try_reloc_thunk_template(&code, pc, magic).expect("the pool is in reach");
    let thunk = reloc.thunk.into_owned();
    let mut expected = words(&[ldr(1, 32)]);
    expected.extend_from_slice(&code[4..]);
    expected.extend_from_slice(&(pc + 0x100).to_le_bytes());
    assert_eq!(thunk, expected);
    assert_eq!(reloc.magic_offset, 16);
}

#[test]
fn aarch64_adrp_becomes_a_load_of_the_page() {
    // NOP; ADRP X2, 3 pages on
    let (code, magic) = template(&[NOP, 0xf000_0002 | (0 << 5)]);
    let pc: u64 = 0x40_1230;
    let reloc = try_reloc_thunk_template(&code, pc, magic).expect("the pool is in reach");
    let thunk = reloc.thunk.into_owned();
    let pool = code.len();
    assert_eq!(thunk[4..8], ldr(2, pool as i32 - 4).to_le_bytes());
    assert_eq!(thunk[pool..], 0x40_4000u64.to_le_bytes());
}

#[test]
fn aarch64_a_literal_load_becomes_a_load_through_the_register() {
    // LDR X2, #0x20; LDR W3, #-8; NOP
    let (code, magic) = template(&[ldr(2, 0x20), 0x18ff_ffc3, NOP]);
    assert_eq!((code.len(), magic), (40, 24));
    let pc: u64 = 0x40_1000;
    let reloc = try_reloc_thunk_template(&code, pc, magic).expect("the pool is in reach");
    let thunk = reloc.thunk.into_owned();
    // each load has grown by four bytes: 48 bytes of code, and the marker at 32 is
    // in line with the pool at 48
    assert_eq!(reloc.magic_offset, 32);
    let mut expected = words(&[
        ldr(2, 48),
        0xf940_0042, // LDR X2, [X2]
        ldr(3, 56 - 8),
        0xb940_0063, // LDR W3, [X3]
        NOP,
    ]);
    expected.extend_from_slice(&code[12..]);
    expected.extend_from_slice(&(pc + 0x20).to_le_bytes());
    expected.extend_from_slice(&(pc + 4 - 8).to_le_bytes());
    assert_eq!(thunk, expected);
    assert_eq!(thunk[32..40], MAGIC.to_le_bytes());
}

#[test]
fn aarch64_the_pool_is_brought_in_line_with_the_marker() {
    // LDR X2, #0x20
    let (mut code, magic) = template(&[ldr(2, 0x20)]);
    assert_eq!((code.len(), magic), (32, 16));
    let reloc = try_reloc_thunk_template(&code, 0, magic).expect("the pool is in reach");
    let thunk = reloc.thunk.into_owned();
    assert_eq!(reloc.magic_offset, 20);
    assert_eq!(thunk.len(), 36 + 8);
    assert_eq!(thunk[..4], ldr(2, 36).to_le_bytes());
    assert_eq!(thunk[36..], 0x20u64.to_le_bytes());
    // a template that ends half a pointer out of line with its marker
    code.extend_from_slice(&[0xaa; 4]);
    let reloc = try_reloc_thunk_template(&code, 0, magic).expect("the pool is in reach");
    let thunk = reloc.thunk.into_owned();
    assert_eq!(reloc.magic_offset, 20);
    assert_eq!(thunk.len(), 40 + 4 + 8);
    assert_eq!(thunk[36..40], [0xaa; 4]);
    assert_eq!(thunk[40..44], [0; 4]);
    assert_eq!(thunk[..4], ldr(2, 44).to_le_bytes());
    assert_eq!(thunk[44..], 0x20u64.to_le_bytes());
}

#[test]
fn aarch64_a_branch_forward_is_followed() {
    // B +8 over a word that is no instruction
    let (with_branch, magic) = template(&[0x1400_0002, 0xffff_ffff]);
    let reloc = try_reloc_thunk_template(&with_branch, 0x1000, magic).expect("followed");
    assert_eq!(reloc.magic_offset, magic);
    assert!(matches!(reloc.thunk, Cow::Borrowed(_)));
    // the same template without the branch and what it skips
    let (without, magic) = template(&[]);
    let reloc = try_reloc_thunk_template(&without, 0x1000, magic).expect("nothing to rewrite");
    assert_eq!(reloc.magic_offset, magic);
    assert!(matches!(reloc.thunk, Cow::Borrowed(_)));
    // what the branch skips is not looked at: an ADR in it stays
    let (skipped, magic) = template(&[0x1400_0002, 0x1000_0801, NOP, 0x1000_0802]);
    let reloc = try_reloc_thunk_template(&skipped, 0x1000, magic).expect("the pool is in reach");
    let thunk = reloc.thunk.into_owned();
    assert_eq!(thunk[..12], skipped[..12]);
    assert_eq!(thunk[12..16], ldr(2, skipped.len() as i32 - 12).to_le_bytes());
}

#[test]
fn aarch64_other_branches_are_refused() {
    // B -4
    let (code, magic) = template(&[NOP, 0x17ff_ffff]);
    assert!(matches!(
        try_reloc_thunk_template(&code, 0x1000, magic),
        Err(JitError::UnsupportedControlFlow)
    ));
    // B to itself
    let (code, magic) = template(&[0x1400_0000]);
    assert!(matches!(
        try_reloc_thunk_template(&code, 0x1000, magic),
        Err(JitError::UnsupportedControlFlow)
    ));
    // B beyond the template
    let (code, magic) = template(&[0x1400_0100]);
    assert!(matches!(
        try_reloc_thunk_template(&code, 0x1000, magic),
        Err(JitError::UnsupportedControlFlow)
    ));
}

#[test]
fn aarch64_instructions_that_cannot_be_moved_are_refused() {
    // RET, BL, B.EQ, CBZ, SVC
    for word in [0xd65f_03c0, 0x9400_0010, 0x5400_0040, 0xb400_0040, 0xd400_0001] {
        let (code, magic) = template(&[NOP, word]);
        assert!(
            matches!(
                try_reloc_thunk_template(&code, 0x1000, magic),
                Err(JitError::UnsupportedInstruction)
            ),
            "{word:08x}"
        );
    }
}

#[test]
fn aarch64_literal_loads_without_a_rewrite_are_refused() {
    // LDR D0, #0x100; LDR X9, marker; LDR X10, marker + 8; BR X10
    let code = [
        0x00, 0x08, 0x00, 0x5c, 0x69, 0x00, 0x00, 0x58, 0x8a, 0x00, 0x00, 0x58, 0x40, 0x01, 0x1f,
        0xd6, 0xad, 0xde, 0x00, 0x00, 0xad, 0xde, 0x00, 0x00, 0, 0, 0, 0, 0, 0, 0, 0,
    ];
    assert!(matches!(
        try_reloc_thunk_template(&code, 0x1000, 16),
        Err(JitError::UnsupportedInstruction)
    ));
    // LDR S1, #8; LDR Q2, #-16; PRFM PLDL1KEEP, #8
    for word in [0x1c00_0041, 0x9cff_ff82, 0xd800_0040] {
        let (code, magic) = template(&[NOP, word]);
        assert!(
            matches!(
                try_reloc_thunk_template(&code, 0x1000, magic),
                Err(JitError::UnsupportedInstruction)
            ),
            "{word:08x}"
        );
    }
    assert!(matches!(
        judge(&[], 0x5c00_0800, 0x1000, 0, 32, 16),
        Stepped::Stop(JitError::UnsupportedInstruction)
    ));
    // a prefetch of the marker slot is no load of it
    assert!(matches!(
        judge(&[], 0xd800_0080, 0x1000, 0, 32, 16),
        Stepped::Stop(JitError::UnsupportedInstruction)
    ));
    // LDR D0, [X1] reads no literal
    assert!(matches!(judge(&[], 0xfd40_0020, 0x1000, 0, 32, 16), Stepped::Next(4)));
}

#[test]
fn aarch64_a_template_that_never_reads_the_marker_has_no_end() {
    let code = words(&[NOP, NOP, NOP, NOP]);
    assert!(matches!(try_reloc_thunk_template(&code, 0, 8), Err(JitError::NoThunkAsm)));
    assert!(matches!(try_reloc_thunk_template(&[], 0, 0), Err(JitError::NoThunkAsm)));
    assert!(matches!(try_reloc_thunk_template(&code[..3], 0, 0), Err(JitError::NoThunkAsm)));
}

#[test]
fn aarch64_a_word_that_is_no_instruction_is_refused() {
    let (code, magic) = template(&[NOP, 0xffff_ffff]);
    assert!(matches!(
        try_reloc_thunk_template(&code, 0, magic),
        Err(JitError::InvalidInstruction)
    ));
}

#[test]
fn aarch64_a_pool_out_of_reach_is_refused() {
    // ADR X1, #0x100, and more than a mebibyte of code before the marker
    let mut prefix = vec![0x1000_0801u32];
    prefix.resize(0x4_0001, NOP);
    let (code, magic) = template(&prefix);
    assert!(matches!(
        try_reloc_thunk_template(&code, 0x1000, magic),
        Err(JitError::EncodingError)
    ));
}

#[test]
fn aarch64_instructions_are_judged_by_their_word_and_groups() {
    let pc = 0x1000;
    assert!(matches!(judge(&[], NOP, pc, 8, 64, 32), Stepped::Next(12)));
    assert!(matches!(judge(&[9, 200], NOP, pc, 8, 64, 32), Stepped::Next(12)));
    assert!(matches!(
        judge(&[9, 1], NOP, pc, 8, 64, 32),
        Stepped::Stop(JitError::UnsupportedInstruction)
    ));
    // the literal load of the marker ends the prefix, whatever its groups
    assert!(matches!(judge(&[1], ldr(16, 24), pc, 8, 64, 32), Stepped::Marker));
    match judge(&[], ldr(5, 16), pc, 8, 64, 32) {
        Stepped::Rewritten(fix) => {
            assert_eq!((fix.at, fix.len, fix.reg, fix.target), (8, 4, 5, 0x1018));
            assert_eq!(fix.follow, 0xf940_00a5u32.to_le_bytes());
        }
        _ => panic!("a literal load is rewritten"),
    }
    match judge(&[], 0x1000_0801, pc, 8, 64, 32) {
        Stepped::Rewritten(fix) => {
            assert_eq!((fix.at, fix.len, fix.reg, fix.target), (8, 4, 1, 0x1108));
            assert!(fix.follow.is_empty());
        }
        _ => panic!("ADR is rewritten"),
    }
    assert!(matches!(judge(&[1, 7], 0x1400_0002, pc, 8, 64, 32), Stepped::Next(16)));
    assert!(matches!(judge(&[1, 7], 0x1400_0001, pc, 8, 64, 32), Stepped::Next(12)));
    assert!(matches!(
        judge(&[1, 7], 0x1400_000e, pc, 8, 64, 32),
        Stepped::Stop(JitError::UnsupportedControlFlow)
    ));
    assert!(matches!(judge(&[1, 7], 0x1400_000d, pc, 8, 64, 32), Stepped::Next(60)));
}
