use closure_ffi::safe_jit::aarch64::encoding::{Adr, Branch, LdrImm, LdrImmOpc, LdrOfs};

#[test]
fn aarch64_encoding_ldr_imm() {
    let cases: [(LdrImmOpc, u32, i32, [u8; 4]); 5] = [
        (LdrImmOpc::Load64, 5, 4, *b"\x85\x00\x00\x58"),
        (LdrImmOpc::Load64, 3, -4, *b"\x83\xff\xff\x58"),
        (LdrImmOpc::Load32, 3, 5, *b"\xa3\x00\x00\x18"),
        (LdrImmOpc::Load32Sx, 3, 5, *b"\xa3\x00\x00\x98"),
        (LdrImmOpc::Prefetch, 0, 10, *b"\x40\x01\x00\xd8"),
    ];

    for (opc, reg, imm, bytes) in cases {
        let expected = u32::from_le_bytes(bytes);
        let ldr = LdrImm::from_raw(expected);

        assert!(ldr.assert_opcode());
        assert_eq!(ldr.opc(), opc);
        assert_eq!(ldr.reg(), reg);
        assert_eq!(ldr.imm(), imm);

        let encoded = LdrImm::new(opc, reg, imm).expect("encoding failure");
        assert_eq!(encoded.to_raw(), expected)
    }
}

#[test]
fn aarch64_encoding_adr() {
    let cases: [(bool, u32, u64, u64, [u8; 4]); 5] = [
        (false, 3, 0x1000, 0x2000, *b"\x03\x80\x00\x10"),
        (false, 4, 0x2000, 0x1000, *b"\x04\x80\xff\x10"),
        (true, 5, 0x2000, 0x5000, *b"\x05\x00\x00\xf0"),
        (true, 5, 0x2300, 0x5000, *b"\x05\x00\x00\xf0"),
        (true, 5, 0x5100, 0x2000, *b"\xe5\xff\xff\xb0"),
    ];

    for (is_adrp, reg, pc, target, bytes) in cases {
        let adr = Adr::from_raw(u32::from_le_bytes(bytes));

        assert!(adr.assert_opcode());
        assert_eq!(adr.is_adrp(), is_adrp);
        assert_eq!(adr.reg(), reg);
        assert_eq!(adr.target_pc(pc), target);
    }
}

#[test]
fn aarch64_encoding_branch() {
    let cases: [(u64, u64, [u8; 4]); 2] = [
        (0x1000, 0x2000, *b"\x00\x04\x00\x14"),
        (0x2000, 0x1000, *b"\x00\xfc\xff\x17"),
    ];

    for (pc, target, bytes) in cases {
        let b = Branch::from_raw(u32::from_le_bytes(bytes));

        assert!(b.assert_opcode());
        assert_eq!(b.target_pc(pc), target);
    }
}

#[test]
fn aarch64_encoding_ldr_ofs() {
    let cases: [(LdrImmOpc, u32, u32, u32, [u8; 4]); 4] = [
        (LdrImmOpc::Load64, 3, 4, 0x100, *b"\x83\x80\x40\xf9"),
        (LdrImmOpc::Load32, 3, 4, 0x100, *b"\x83\x00\x41\xb9"),
        (LdrImmOpc::Load32Sx, 3, 4, 0x100, *b"\x83\x00\x81\xb9"),
        (LdrImmOpc::Prefetch, 0, 3, 0x200, *b"\x60\x00\x81\xf9"),
    ];

    for (opc, reg_dest, reg_base, disp, bytes) in cases {
        let expected = u32::from_le_bytes(bytes);
        let ldr = LdrOfs::from_raw(expected);

        assert_eq!(ldr.reg_dest(), reg_dest);
        assert_eq!(ldr.reg_base(), reg_base);
        assert_eq!(ldr.disp(), disp);

        let encoded = LdrOfs::new(opc, reg_dest, reg_base, disp).expect("encoding failure");
        assert_eq!(encoded.to_raw(), expected)
    }
}

#[test]
fn ldr_literal_fixture_bytes() {
    let encoded = LdrImm::new(LdrImmOpc::Load64, 3, -4).expect("encoding failure");
    assert_eq!(encoded.to_raw().to_le_bytes(), [0x83, 0xff, 0xff, 0x58]);
    let decoded = LdrImm::try_from_raw(u32::from_le_bytes([0x83, 0xff, 0xff, 0x58])).unwrap();
    assert_eq!(decoded.reg(), 3);
    assert_eq!(decoded.imm(), -4);
    assert_eq!(decoded.target_pc(0x1000), 0x1000 - 16);
}

#[test]
fn ldr_literal_reaches_one_mebibyte_each_way() {
    let pc: u64 = 0x4000_0000;
    let far = pc + 0x10_0000 - 4;
    let ldr = LdrImm::new_at(pc, LdrImmOpc::Load64, 7, far).expect("in reach");
    assert_eq!(ldr.imm(), 0x3_ffff);
    assert_eq!(ldr.target_pc(pc), far);
    let back = pc - 0x10_0000;
    let ldr = LdrImm::new_at(pc, LdrImmOpc::Load32, 7, back).expect("in reach");
    assert_eq!(ldr.imm(), -0x4_0000);
    assert_eq!(ldr.target_pc(pc), back);
    assert!(LdrImm::new_at(pc, LdrImmOpc::Load64, 7, pc + 0x10_0000).is_err());
    assert!(LdrImm::new_at(pc, LdrImmOpc::Load64, 7, pc - 0x10_0004).is_err());
    assert!(LdrImm::new_at(pc, LdrImmOpc::Load64, 7, pc + 2).is_err());
    assert!(LdrImm::new_at(pc, LdrImmOpc::Load64, 32, pc + 8).is_err());
}

#[test]
fn ldr_literal_wraps_round_the_address_space() {
    let pc: u64 = u64::MAX - 7;
    let ldr = LdrImm::new_at(pc, LdrImmOpc::Load64, 1, 8).expect("in reach");
    assert_eq!(ldr.imm(), 4);
    assert_eq!(ldr.target_pc(pc), 8);
}

#[test]
fn ldr_literal_refuses_what_does_not_fit() {
    assert!(LdrImm::new(LdrImmOpc::Load64, 32, 0).is_err());
    assert!(LdrImm::new(LdrImmOpc::Load64, 0, 0x4_0000).is_err());
    assert!(LdrImm::new(LdrImmOpc::Load64, 0, -0x4_0001).is_err());
    assert!(LdrImm::new(LdrImmOpc::Load64, 31, 0x3_ffff).is_ok());
    assert!(LdrImm::new(LdrImmOpc::Load64, 31, -0x4_0000).is_ok());
    let mut ldr = LdrImm::from_raw(0x5800_0000);
    assert_eq!(ldr.try_set_reg(40), Err(()));
    assert_eq!(ldr.to_raw(), 0x5800_0000);
    assert_eq!(ldr.try_set_reg(9), Ok(()));
    assert_eq!(ldr.try_set_imm(-1), Ok(()));
    assert_eq!(ldr.to_raw(), 0x58ff_ffe9);
    assert!(LdrImm::try_from_raw(0x1000_0000).is_err());
}

#[test]
fn adr_range_limits() {
    // ADR x0, #0xfffff and ADR x0, #-0x100000
    let most = Adr::try_from_raw(0x707f_ffe0).unwrap();
    assert!(!most.is_adrp());
    assert_eq!(most.target_pc(0x20_0000), 0x20_0000 + 0xf_ffff);
    let least = Adr::try_from_raw(0x1080_0000).unwrap();
    assert_eq!(least.target_pc(0x20_0000), 0x20_0000 - 0x10_0000);
    // ADRP x0 by -1 page from an address inside a page
    let page = Adr::try_from_raw(0xf0ff_ffe0).unwrap();
    assert!(page.is_adrp());
    assert_eq!(page.target_pc(0x12_3456), 0x12_2000);
    assert!(Adr::try_from_raw(0x5800_0000).is_err());
}

#[test]
fn branch_points_where_it_is_set() {
    let mut b = Branch::from_raw(0x1400_0000);
    assert_eq!(b.try_set_target_pc(0x1000, 0x2000), Ok(()));
    assert_eq!(b.to_raw(), 0x1400_0400);
    assert_eq!(b.target_pc(0x1000), 0x2000);
    assert_eq!(b.try_set_target_pc(0x2000, 0x1000), Ok(()));
    assert_eq!(b.to_raw(), 0x17ff_fc00);
    assert_eq!(b.try_set_target_pc(0x2000, 0x1002), Err(()));
    assert_eq!(b.to_raw(), 0x17ff_fc00);
    assert_eq!(b.try_set_target_pc(0, 0x800_0000), Err(()));
    assert_eq!(b.try_set_target_pc(0, 0x7ff_fffc), Ok(()));
    assert_eq!(b.imm(), 0x1ff_ffff);
    assert_eq!(b.try_set_imm(0x200_0000), Err(()));
    assert!(Branch::try_from_raw(0x9400_0000).is_err());
}

#[test]
fn ldr_offset_refuses_what_does_not_fit() {
    assert!(LdrOfs::new(LdrImmOpc::Load64, 32, 0, 0).is_err());
    assert!(LdrOfs::new(LdrImmOpc::Load64, 0, 32, 0).is_err());
    assert!(LdrOfs::new(LdrImmOpc::Load64, 0, 0, 4).is_err());
    assert!(LdrOfs::new(LdrImmOpc::Load32, 0, 0, 4).is_ok());
    assert!(LdrOfs::new(LdrImmOpc::Load64, 0, 0, 8 * 0xfff).is_ok());
    assert!(LdrOfs::new(LdrImmOpc::Load64, 0, 0, 8 * 0x1000).is_err());
    let through = LdrOfs::new(LdrImmOpc::Load64, 2, 2, 0).unwrap();
    assert_eq!(through.to_raw(), 0xf940_0042);
    let mut ldr = through;
    assert_eq!(ldr.try_set_disp(12), Err(()));
    assert_eq!(ldr.try_set_disp(16), Ok(()));
    assert_eq!(ldr.disp(), 16);
    assert_eq!(ldr.to_raw(), 0xf940_0842);
}
