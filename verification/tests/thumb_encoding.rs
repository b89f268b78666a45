use closure_ffi::safe_jit::arm_util::encoding_arm::{
    ARM_INS_LDR, ARM_INS_LDRD, ARM_INS_LDRT,
};
use closure_ffi::safe_jit::arm_util::encoding_thumb::{effective_pc, Adr, LdrImm, LoadImm};

#[test]
fn thumb_program_counter_reads_one_word_ahead() {
    assert_eq!(effective_pc(0x1000), 0x1004);
    assert_eq!(effective_pc(0x1002), 0x1004);
    assert_eq!(effective_pc(0x1006), 0x1008);
}

#[test]
fn thumb_ldr_is_encoded() {
    // LDR.W r0, [pc, #4]: f8df 0004
    let ldr = LdrImm::new(0, 15, 4).expect("encoding failure");
    assert_eq!(ldr.to_raw(), 0x0004_f8df);
    assert_eq!(ldr.bytes(), [0xdf, 0xf8, 0x04, 0x00]);
    // LDR.W r1, [pc, #-8]: f85f 1008
    let ldr = LdrImm::new(1, 15, -8).expect("encoding failure");
    assert_eq!(ldr.to_raw(), 0x1008_f85f);
    // LDR.W r2, [r3, #0xfff]: f8d3 2fff
    let ldr = LdrImm::new(2, 3, 0xfff).expect("encoding failure");
    assert_eq!(ldr.to_raw(), 0x2fff_f8d3);
    // only the program counter takes an offset below zero
    assert!(LdrImm::new(2, 3, -4).is_err());
    assert!(LdrImm::new(16, 15, 0).is_err());
    assert!(LdrImm::new(0, 15, 0x1000).is_err());
}

#[test]
fn thumb_literal_load_reaches_its_target() {
    // placed at 0x1002 the program counter reads 0x1004
    let ldr = LdrImm::new_lit(0x1002, 4, 0x1010).expect("in reach");
    assert_eq!(ldr.to_raw(), 0x400c_f8df);
    let ldr = LdrImm::new_lit(0x1002, 4, 0x1000).expect("in reach");
    assert_eq!(ldr.to_raw(), 0x4004_f85f);
    assert!(LdrImm::new_lit(0x1000, 4, 0x1004 + 0xfff).is_ok());
    assert!(LdrImm::new_lit(0x1000, 4, 0x1004 + 0x1000).is_err());
    assert!(LdrImm::new_lit(0x1000, 4, 0x1004 - 0x1000).is_err());
}

#[test]
fn thumb_loads_are_read() {
    // LDR r0, [pc, #4]: 4801
    let load = LoadImm::try_from_raw(ARM_INS_LDR, &[0x01, 0x48]).unwrap();
    assert!(matches!(load, LoadImm::LdrLitT1(0x4801)));
    assert_eq!(load.rt(), 0);
    assert_eq!(load.target_pc(0x1002), Some(0x1008));
    // LDR r0, [r1, #4] (6848) is no literal load
    assert!(LoadImm::try_from_raw(ARM_INS_LDR, &[0x48, 0x68]).is_none());
    // LDR.W r3, [pc, #0x10]: f8df 3010
    let load = LoadImm::try_from_raw(ARM_INS_LDR, &[0xdf, 0xf8, 0x10, 0x30]).unwrap();
    assert!(matches!(load, LoadImm::LdrW(0x3010_f8df)));
    assert_eq!(load.rt(), 3);
    assert_eq!(load.target_pc(0x1000), Some(0x1014));
    // LDR.W r3, [pc, #-0x10]: f85f 3010
    let load = LoadImm::try_from_raw(ARM_INS_LDR, &[0x5f, 0xf8, 0x10, 0x30]).unwrap();
    assert_eq!(load.target_pc(0x1000), Some(0x0ff4));
    // LDR.W r3, [r1, #0x10]: f8d1 3010
    let load = LoadImm::try_from_raw(ARM_INS_LDR, &[0xd1, 0xf8, 0x10, 0x30]).unwrap();
    assert_eq!(load.target_pc(0x1000), None);
    // LDRD r2, r3, [pc, #8]: e9df 2302
    let load = LoadImm::try_from_raw(ARM_INS_LDRD, &[0xdf, 0xe9, 0x02, 0x23]).unwrap();
    assert!(matches!(load, LoadImm::LdrD(0x2302_e9df)));
    assert_eq!(load.rt(), 2);
    assert_eq!(load.target_pc(0x1000), Some(0x100c));
    // LDRD r2, r3, [pc, #-8]: e95f 2302
    let load = LoadImm::try_from_raw(ARM_INS_LDRD, &[0x5f, 0xe9, 0x02, 0x23]).unwrap();
    assert_eq!(load.target_pc(0x1000), Some(0x0ffc));
    // LDRT r1, [r2, #4]: f852 1e04
    let load = LoadImm::try_from_raw(ARM_INS_LDRT, &[0x52, 0xf8, 0x04, 0x1e]).unwrap();
    assert!(matches!(load, LoadImm::LdrT(0x1e04_f852)));
    assert_eq!(load.target_pc(0x1000), None);
    assert!(LoadImm::try_from_raw(1, &[0xdf, 0xf8, 0x10, 0x30]).is_none());
    assert!(LoadImm::try_from_raw(ARM_INS_LDR, &[0xdf, 0xf8, 0x10]).is_none());
}

#[test]
fn thumb_loads_become_loads_through_their_register() {
    // LDR r2, [pc, #4] (4a01) -> LDR r2, [r2] (6812)
    let load = LoadImm::try_from_raw(ARM_INS_LDR, &[0x01, 0x4a]).unwrap();
    assert_eq!(load.rt_load_vec(), vec![0x12, 0x68]);
    assert_eq!(load.as_rt_load(|bytes| bytes.to_vec()), vec![0x12, 0x68]);
    // LDR.W r3, [pc, #-0x10] (f85f 3010) -> LDR.W r3, [r3] (f8d3 3000)
    let load = LoadImm::try_from_raw(ARM_INS_LDR, &[0x5f, 0xf8, 0x10, 0x30]).unwrap();
    assert_eq!(load.rt_load_vec(), vec![0xd3, 0xf8, 0x00, 0x30]);
    // LDRD r2, r3, [pc, #-8] (e95f 2302) -> LDRD r2, r3, [r2] (e9d2 2300)
    let load = LoadImm::try_from_raw(ARM_INS_LDRD, &[0x5f, 0xe9, 0x02, 0x23]).unwrap();
    assert_eq!(load.rt_load_vec(), vec![0xd2, 0xe9, 0x00, 0x23]);
}

#[test]
fn thumb_adr_is_read() {
    // ADR r1, #8: a102
    let adr = Adr::try_from_raw(&[0x02, 0xa1]).unwrap();
    assert!(matches!(adr, Adr::T1(0xa102)));
    assert_eq!(adr.dest_reg(), 1);
    assert_eq!(adr.target_pc(0x1002), 0x100c);
    // ADR.W r2, #0x123 (ADD form): f20f 1223
    let adr = Adr::try_from_raw(&[0x0f, 0xf2, 0x23, 0x12]).unwrap();
    assert!(matches!(adr, Adr::T23(0x1223_f20f)));
    assert_eq!(adr.dest_reg(), 2);
    assert_eq!(adr.target_pc(0x1000), 0x1004 + 0x123);
    // ADR.W r2, #-0x923 (SUB form): f6af 1223
    let adr = Adr::try_from_raw(&[0xaf, 0xf6, 0x23, 0x12]).unwrap();
    assert_eq!(adr.target_pc(0x1000), 0x1004 - 0x923);
    // ADDW r2, r1, #0x123 (f201 1223) and MOV r0, r0 are no ADR
    assert!(Adr::try_from_raw(&[0x01, 0xf2, 0x23, 0x12]).is_none());
    assert!(Adr::try_from_raw(&[0x00, 0x46]).is_none());
    assert!(Adr::try_from_raw(&[0x0f, 0xf2, 0x23]).is_none());
}
