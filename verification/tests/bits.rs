use closure_ffi::safe_jit::util::{
    advance32, advance64, distance32, distance64, get_bits, get_signed, le16_bytes, le32_bytes,
    le64_bytes, magnitude, offset32, offset64, offset_from, put4, quarter, read_le16, read_le32,
    set_bits, try_set_bits, try_set_signed,
};

#[test]
fn fields_are_read_and_written() {
    assert_eq!(get_bits(0x58ff_ff83, 0, 5), 3);
    assert_eq!(get_bits(0x58ff_ff83, 5, 24), 0x7_fffc);
    assert_eq!(get_bits(0x58ff_ff83, 24, 30), 0b011000);
    assert_eq!(get_bits(0x58ff_ff83, 30, 32), 1);
    assert_eq!(get_bits(0xdead_beef, 0, 32), 0xdead_beef);
    assert_eq!(set_bits(0, 4, 8, 0xff), 0xf0);
    assert_eq!(set_bits(0xffff_ffff, 8, 16, 0), 0xffff_00ff);
    assert_eq!(set_bits(0x1234_5678, 0, 32, 0x9abc_def0), 0x9abc_def0);
    assert_eq!(try_set_bits(0, 0, 5, 31), Some(31));
    assert_eq!(try_set_bits(0, 0, 5, 32), None);
    assert_eq!(try_set_bits(0xffff_ffff, 28, 32, 0), Some(0x0fff_ffff));
}

#[test]
fn signed_fields_are_read_and_written() {
    assert_eq!(get_signed(0x58ff_ff83, 5, 24), -4);
    assert_eq!(get_signed(0x0000_0080, 5, 24), 4);
    assert_eq!(get_signed(0xffff_ffff, 0, 32), -1);
    assert_eq!(get_signed(0x8000_0000, 0, 32), i32::MIN);
    assert_eq!(try_set_signed(0, 5, 24, -4), Some(0x00ff_ff80));
    assert_eq!(try_set_signed(0, 5, 24, 0x3_ffff), Some(0x3_ffff << 5));
    assert_eq!(try_set_signed(0, 5, 24, 0x4_0000), None);
    assert_eq!(try_set_signed(0, 5, 24, -0x4_0000), Some(0x4_0000 << 5));
    assert_eq!(try_set_signed(0, 5, 24, -0x4_0001), None);
    assert_eq!(try_set_signed(0, 0, 2, 1), Some(1));
    assert_eq!(try_set_signed(0, 0, 2, 2), None);
    assert_eq!(try_set_signed(0, 0, 2, -2), Some(2));
}

#[test]
fn addresses_wrap() {
    assert_eq!(offset64(0x1000, -16), 0xff0);
    assert_eq!(offset64(8, -16), u64::MAX - 7);
    assert_eq!(offset64(u64::MAX, 1), 0);
    assert_eq!(offset64(0, i64::MIN), 0x8000_0000_0000_0000);
    assert_eq!(advance64(u64::MAX - 1, 3), 1);
    assert_eq!(offset_from(0x1000, 0x1010), 0x10);
    assert_eq!(offset_from(0x1010, 0x1000), u64::MAX - 0xf);
    assert_eq!(distance64(0x1000, 0xff0), -16);
    assert_eq!(distance64(u64::MAX - 7, 8), 16);
    assert_eq!(distance64(0, 0x8000_0000_0000_0000), i64::MIN);
    assert_eq!(offset32(0xffff_fffc, 8), 4);
    assert_eq!(offset32(4, -8), 0xffff_fffc);
    assert_eq!(advance32(0xffff_fff0, 0x20), 0x10);
    assert_eq!(distance32(0xffff_fff0, 0x10), 0x20);
    assert_eq!(distance32(0x10, 0xffff_fff0), -0x20);
    assert_eq!(magnitude(-5), 5);
    assert_eq!(magnitude(i32::MIN), 0x8000_0000);
    assert_eq!(quarter(-8), Some(-2));
    assert_eq!(quarter(12), Some(3));
    assert_eq!(quarter(-6), None);
    assert_eq!(quarter(i64::MIN), Some(i64::MIN / 4));
}

#[test]
fn words_are_little_endian() {
    assert_eq!(read_le32(&[0x83, 0xff, 0xff, 0x58], 0), 0x58ff_ff83);
    assert_eq!(read_le32(&[0, 0x78, 0x56, 0x34, 0x12], 1), 0x1234_5678);
    assert_eq!(read_le16(&[0x01, 0x48], 0), 0x4801);
    assert_eq!(le32_bytes(0x58ff_ff83), [0x83, 0xff, 0xff, 0x58]);
    assert_eq!(le16_bytes(0x4801), [0x01, 0x48]);
    assert_eq!(
        le64_bytes(0x0102_0304_0506_0708),
        [0x08, 0x07, 0x06, 0x05, 0x04, 0x03, 0x02, 0x01]
    );
    let mut buf = vec![1u8, 2, 3, 4, 5, 6];
    put4(&mut buf, 1, &[9, 8, 7, 6]);
    assert_eq!(buf, vec![1, 9, 8, 7, 6, 6]);
}
