use closure_ffi::safe_jit::arm_util::encoding_arm::{
    effective_pc, Adr, LdrImm, LoadImm, ARM_INS_LDR, ARM_INS_LDRB, ARM_INS_LDRD, ARM_INS_LDRH,
};

#[test]
fn arm_program_counter_reads_two_instructions_ahead() {
    assert_eq!(effective_pc(0x1000), 0x1008);
    assert_eq!(effective_pc(0x1002), 0x1008);
    assert_eq!(effective_pc(0xffff_fffc), 4);
}

#[test]
fn arm_ldr_is_encoded() {
    // LDR r0, [pc, #4]
    let ldr = LdrImm::new(0, 15, 4).expect("encoding failure");
    assert_eq!(ldr.to_raw(), 0xe59f_0004);
    assert_eq!(ldr.bytes(), [0x04, 0x00, 0x9f, 0xe5]);
    // LDR r1, [pc, #-8]
    let ldr = LdrImm::new(1, 15, -8).expect("encoding failure");
    assert_eq!(ldr.to_raw(), 0xe51f_1008);
    // LDR r2, [r3, #0xfff]
    let ldr = LdrImm::new(2, 3, 0xfff).expect("encoding failure");
    assert_eq!(ldr.to_raw(), 0xe593_2fff);
    assert!(LdrImm::new(16, 0, 0).is_err());
    assert!(LdrImm::new(0, 16, 0).is_err());
    assert!(LdrImm::new(0, 0, 0x1000).is_err());
    assert!(LdrImm::new(0, 0, -0x1000).is_err());
    assert!(LdrImm::new(0, 0, -0xfff).is_ok());
}

#[test]
fn arm_literal_load_reaches_its_target() {
    // placed at 0x1000 the program counter reads 0x1008
    let ldr = LdrImm::new_lit(0x1000, 4, 0x1010).expect("in reach");
    assert_eq!(ldr.to_raw(), 0xe59f_4008);
    let ldr = LdrImm::new_lit(0x1000, 4, 0x1000).expect("in reach");
    assert_eq!(ldr.to_raw(), 0xe51f_4008);
    assert!(LdrImm::new_lit(0x1000, 4, 0x1008 + 0xfff).is_ok());
    assert!(LdrImm::new_lit(0x1000, 4, 0x1008 + 0x1000).is_err());
    assert!(LdrImm::new_lit(0x1000, 4, 0x1008 - 0xfff).is_ok());
    assert!(LdrImm::new_lit(0x1000, 4, 0x1008 - 0x1000).is_err());
    // round the top of the address space
    let ldr = LdrImm::new_lit(0xffff_fff8, 0, 0x10).expect("in reach");
    assert_eq!(ldr.to_raw(), 0xe59f_0010);
}

#[test]
fn arm_loads_are_read() {
    // LDR r0, [pc, #4]
    let load = LoadImm::try_from_raw(ARM_INS_LDR, &[0x04, 0x00, 0x9f, 0xe5]).unwrap();
    assert!(matches!(load, LoadImm::WB(0xe59f_0004)));
    assert_eq!(load.rt(), 0);
    assert_eq!(load.target_pc(0x1000), Some(0x100c));
    // LDRB r1, [pc, #-8]
    let load = LoadImm::try_from_raw(ARM_INS_LDRB, &[0x08, 0x10, 0x5f, 0xe5]).unwrap();
    assert_eq!(load.rt(), 1);
    assert_eq!(load.target_pc(0x1000), Some(0x1000));
    // LDRH r2, [pc, #0x24]: the offset is split in two nibbles
    let load = LoadImm::try_from_raw(ARM_INS_LDRH, &[0xb4, 0x22, 0xdf, 0xe1]).unwrap();
    assert!(matches!(load, LoadImm::Ex(0xe1df_22b4)));
    assert_eq!(load.rt(), 2);
    assert_eq!(load.target_pc(0x1000), Some(0x1008 + 0x24));
    // LDRD r2, r3, [pc, #-0x10]
    let load = LoadImm::try_from_raw(ARM_INS_LDRD, &[0xd0, 0x21, 0x4f, 0xe1]).unwrap();
    assert_eq!(load.target_pc(0x1000), Some(0x1008 - 0x10));
    // LDR r0, [r1, #4] has no literal
    let load = LoadImm::try_from_raw(ARM_INS_LDR, &[0x04, 0x00, 0x91, 0xe5]).unwrap();
    assert_eq!(load.target_pc(0x1000), None);
    // not a load, or not four bytes
    assert!(LoadImm::try_from_raw(1, &[0x04, 0x00, 0x9f, 0xe5]).is_none());
    assert!(LoadImm::try_from_raw(ARM_INS_LDR, &[0x04, 0x00]).is_none());
}

#[test]
fn arm_loads_become_loads_through_their_register() {
    // LDR r3, [pc, #4] -> LDR r3, [r3]
    let load = LoadImm::try_from_raw(ARM_INS_LDR, &[0x04, 0x30, 0x9f, 0xe5]).unwrap();
    assert_eq!(load.rt_load_word(), 0xe593_3000);
    let bytes = load.as_rt_load(|bytes| bytes.to_vec());
    assert_eq!(bytes, vec![0x00, 0x30, 0x93, 0xe5]);
    // LDRH r2, [pc, #0x24] -> LDRH r2, [r2]
    let load = LoadImm::try_from_raw(ARM_INS_LDRH, &[0xb4, 0x22, 0xdf, 0xe1]).unwrap();
    assert_eq!(load.rt_load_word(), 0xe1d2_20b0);
    assert_eq!(load.as_rt_load(|bytes| bytes.len()), 4);
}

#[test]
fn arm_adr_is_read() {
    // ADD r0, pc, #8
    let adr = Adr::try_from_raw(&[0x08, 0x00, 0x8f, 0xe2]).unwrap();
    assert_eq!(adr.dest_reg(), 0);
    assert_eq!(adr.target_pc(0x1000), 0x1010);
    // SUB r1, pc, #8
    let adr = Adr::try_from_raw(&[0x08, 0x10, 0x4f, 0xe2]).unwrap();
    assert_eq!(adr.dest_reg(), 1);
    assert_eq!(adr.target_pc(0x1000), 0x1000);
    // ADD r2, pc, #0x100: 1 rotated right by 24
    let adr = Adr::try_from_raw(&[0x01, 0x2c, 0x8f, 0xe2]).unwrap();
    assert_eq!(adr.target_pc(0x1000), 0x1108);
    // ADD r0, r1, #8 and ADDS r0, pc, #8 are no ADR; nor are two bytes
    assert!(Adr::try_from_raw(&[0x08, 0x00, 0x81, 0xe2]).is_none());
    assert!(Adr::try_from_raw(&[0x08, 0x00, 0x9f, 0xe2]).is_none());
    assert!(Adr::try_from_raw(&[0x08, 0x00]).is_none());
    assert_eq!(Adr::from_raw(0xe28f_0008).to_raw(), 0xe28f_0008);
}
