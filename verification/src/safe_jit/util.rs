//! Bit fields of instruction words, little-endian words in byte buffers, and addresses
//! that wrap.
//!
//! A field is a bit range `start..end` of a 32-bit word. Narrower words (Thumb's 16-bit
//! instructions) are held in the low bits of a `u32`.

use vstd::prelude::*;
use vstd::arithmetic::power2::{lemma2_to64, lemma_pow2_adds, lemma_pow2_pos, pow2};
use vstd::bits::{lemma_u32_low_bits_mask_is_mod, lemma_u32_shr_is_div, low_bits_mask};

verus! {

/// The word whose `width` low bits are set, for `1 <= width <= 32`.
pub open spec fn mask(width: u32) -> u32 {
    u32::MAX >> ((32 - width) as u32)
}

/// The unsigned value of the field `start..end` of `raw`.
pub open spec fn bits(raw: u32, start: u32, end: u32) -> u32 {
    (raw >> start) & mask((end - start) as u32)
}

/// `raw` with the field `start..end` replaced by the low bits of `val`.
pub open spec fn with_bits(raw: u32, start: u32, end: u32, val: u32) -> u32 {
    (raw & !(mask((end - start) as u32) << start)) | ((val & mask((end - start) as u32)) << start)
}

/// The two's complement reading of a `width`-bit value `v`, for `2 <= width <= 32`.
pub open spec fn signed(v: u32, width: u32) -> int {
    if v > mask((width - 1) as u32) {
        v - mask(width) - 1
    } else {
        v as int
    }
}

/// Whether `val` can be written in `width` bits of two's complement.
pub open spec fn fits_signed(val: int, width: u32) -> bool {
    -mask((width - 1) as u32) - 1 <= val <= mask((width - 1) as u32)
}

/// The `width`-bit two's complement pattern of `val`.
pub open spec fn unsigned(val: int, width: u32) -> int {
    if val < 0 {
        val + mask(width) + 1
    } else {
        val
    }
}

/// `x` brought into `0 .. 2^64` by adding or taking off `2^64` once.
pub open spec fn wrap64(x: int) -> int {
    if x < 0 {
        x + 0x1_0000_0000_0000_0000
    } else if x > u64::MAX {
        x - 0x1_0000_0000_0000_0000
    } else {
        x
    }
}

/// `x` brought into `0 .. 2^32` by adding or taking off `2^32` once.
pub open spec fn wrap32(x: int) -> int {
    if x < 0 {
        x + 0x1_0000_0000
    } else if x > u32::MAX {
        x - 0x1_0000_0000
    } else {
        x
    }
}

/// The signed distance from `pc` to `target` on the 64-bit address circle: the number
/// between `-2^63` and `2^63 - 1` that, added to `pc`, wraps to `target`.
pub open spec fn distance(pc: u64, target: u64) -> int {
    if target - pc > i64::MAX {
        target - pc - 0x1_0000_0000_0000_0000
    } else if target - pc < i64::MIN {
        target - pc + 0x1_0000_0000_0000_0000
    } else {
        target - pc
    }
}

/// The signed distance from `pc` to `target` on the 32-bit address circle: the number
/// between `-2^31` and `2^31 - 1` that, added to `pc`, wraps to `target`.
pub open spec fn distance_32(pc: u32, target: u32) -> int {
    if target - pc > i32::MAX {
        target - pc - 0x1_0000_0000
    } else if target - pc < i32::MIN {
        target - pc + 0x1_0000_0000
    } else {
        target - pc
    }
}

/// Writing a field: the field reads back what fits, and the other fields are untouched.
pub proof fn lemma_with_bits(raw: u32, start: u32, end: u32, val: u32)
    requires
        start < end <= 32,
    ensures
        val <= mask((end - start) as u32) ==> bits(with_bits(raw, start, end, val), start, end)
            == val,
        forall|start2: u32, end2: u32|
            start2 < end2 <= 32 && (end2 <= start || end <= start2) ==> #[trigger] bits(
                with_bits(raw, start, end, val),
                start2,
                end2,
            ) == bits(raw, start2, end2),
{
    lemma_bits_of_with_bits(raw, start, end, val);
    assert forall|start2: u32, end2: u32|
        start2 < end2 <= 32 && (end2 <= start || end <= start2) implies #[trigger] bits(
        with_bits(raw, start, end, val),
        start2,
        end2,
    ) == bits(raw, start2, end2) by {
        lemma_bits_of_with_other_bits(raw, start, end, val, start2, end2);
    }
}

/// The address `by` bytes above `pc` on the 32-bit address circle.
pub open spec fn address32(pc: u32, by: int) -> int {
    (pc + by) % 0x1_0000_0000
}

/// `buf` with the four bytes from `at` replaced by `word`.
pub open spec fn write4(buf: Seq<u8>, at: int, word: Seq<u8>) -> Seq<u8> {
    buf.subrange(0, at) + word + buf.subrange(at + 4, buf.len() as int)
}

/// Whether `whole` is `part` with `ahead` bytes before it.
pub open spec fn behind(whole: Seq<u8>, ahead: int, part: Seq<u8>) -> bool {
    0 <= ahead && whole.len() == ahead + part.len() && whole.subrange(
        ahead,
        whole.len() as int,
    ) == part
}

/// The little-endian word held in the four bytes of `s` from `at`.
pub open spec fn le32(s: Seq<u8>, at: int) -> int {
    s[at] + 0x100 * s[at + 1] + 0x1_0000 * s[at + 2] + 0x100_0000 * s[at + 3]
}

/// The little-endian halfword held in the two bytes of `s` from `at`.
pub open spec fn le16(s: Seq<u8>, at: int) -> int {
    s[at] + 0x100 * s[at + 1]
}

/// Byte `i` of `x`, counted from the least significant, for `i < 8`.
pub open spec fn byte_at(x: int, i: int) -> u8 {
    if i == 0 {
        (x % 0x100) as u8
    } else if i == 1 {
        (x / 0x100 % 0x100) as u8
    } else if i == 2 {
        (x / 0x1_0000 % 0x100) as u8
    } else if i == 3 {
        (x / 0x100_0000 % 0x100) as u8
    } else if i == 4 {
        (x / 0x1_0000_0000 % 0x100) as u8
    } else if i == 5 {
        (x / 0x100_0000_0000 % 0x100) as u8
    } else if i == 6 {
        (x / 0x1_0000_0000_0000 % 0x100) as u8
    } else {
        (x / 0x100_0000_0000_0000 % 0x100) as u8
    }
}

/// The `n` low bytes of `x`, least significant first, for `n <= 8`.
pub open spec fn le_bytes(x: int, n: nat) -> Seq<u8> {
    Seq::new(n, |i: int| byte_at(x, i))
}

/// The values of `mask` for the widths that instruction fields have.
pub proof fn lemma_mask_values()
    ensures
        mask(1) == 0x1,
        mask(2) == 0x3,
        mask(3) == 0x7,
        mask(4) == 0xf,
        mask(5) == 0x1f,
        mask(6) == 0x3f,
        mask(7) == 0x7f,
        mask(8) == 0xff,
        mask(11) == 0x7ff,
        mask(12) == 0xfff,
        mask(16) == 0xffff,
        mask(18) == 0x3_ffff,
        mask(19) == 0x7_ffff,
        mask(20) == 0xf_ffff,
        mask(21) == 0x1f_ffff,
        mask(25) == 0x1ff_ffff,
        mask(26) == 0x3ff_ffff,
        mask(32) == 0xffff_ffff,
{
    assert(0xffff_ffffu32 >> 31u32 == 0x1 && 0xffff_ffffu32 >> 30u32 == 0x3 && 0xffff_ffffu32
        >> 29u32 == 0x7 && 0xffff_ffffu32 >> 28u32 == 0xf && 0xffff_ffffu32 >> 27u32 == 0x1f
        && 0xffff_ffffu32 >> 26u32 == 0x3f && 0xffff_ffffu32 >> 25u32 == 0x7f && 0xffff_ffffu32
        >> 24u32 == 0xff && 0xffff_ffffu32 >> 21u32 == 0x7ff && 0xffff_ffffu32 >> 20u32 == 0xfff
        && 0xffff_ffffu32 >> 16u32 == 0xffff && 0xffff_ffffu32 >> 14u32 == 0x3_ffff
        && 0xffff_ffffu32 >> 13u32 == 0x7_ffff && 0xffff_ffffu32 >> 12u32 == 0xf_ffff
        && 0xffff_ffffu32 >> 11u32 == 0x1f_ffff
        && 0xffff_ffffu32 >> 7u32 == 0x1ff_ffff && 0xffff_ffffu32 >> 6u32 == 0x3ff_ffff
        && 0xffff_ffffu32 >> 0u32 == 0xffff_ffff) by (bit_vector);
}

/// A mask of `width` bits is one more than twice the mask of `width - 1` bits.
pub proof fn lemma_mask_step(width: u32)
    requires
        2 <= width <= 32,
    ensures
        mask(width) == 2 * mask((width - 1) as u32) + 1,
        mask((width - 1) as u32) <= 0x7fff_ffff,
{
    let k: u32 = (32 - width) as u32;
    assert(0xffff_ffffu32 >> k == 2 * (0xffff_ffffu32 >> ((k + 1) as u32)) + 1) by (bit_vector)
        requires
            k <= 30,
    ;
}

/// The mask of a width below 32 is one less than the power of two of the width.
pub proof fn lemma_mask_value(width: u32)
    requires
        1 <= width < 32,
    ensures
        mask(width) == pow2(width as nat) - 1,
{
    let rest = (32 - width) as u32;
    lemma_u32_shr_is_div(u32::MAX, rest);
    lemma_pow2_adds(width as nat, rest as nat);
    lemma_pow2_pos(width as nat);
    lemma_pow2_pos(rest as nat);
    lemma2_to64();
    let a = pow2(width as nat) as int;
    let b = pow2(rest as nat) as int;
    assert(a * b == 0x1_0000_0000);
    assert(a * b - 1 == (a - 1) * b + (b - 1)) by (nonlinear_arith);
    vstd::arithmetic::div_mod::lemma_fundamental_div_mod_converse(a * b - 1, b, a - 1, b - 1);
}

/// What a field holds, in numbers: the word divided by two to the power of the
/// field's start, modulo two to the power of its width.
pub proof fn lemma_bits_value(raw: u32, start: u32, end: u32)
    requires
        start < end <= 32,
        end - start < 32,
    ensures
        bits(raw, start, end) == (raw as nat / pow2(start as nat)) % pow2((end - start) as nat),
{
    let width = (end - start) as u32;
    let shifted = raw >> start;
    lemma_u32_shr_is_div(raw, start);
    lemma_mask_value(width);
    lemma_u32_low_bits_mask_is_mod(shifted, width as nat);
    lemma_pow2_pos(width as nat);
    assert(mask(width) == low_bits_mask(width as nat) as u32);
    vstd::bits::lemma_u32_pow2_no_overflow(width as nat);
}

/// A distance reaches as far from one address as from another: where `target` lies as
/// far from `pc` as `target0` from `pc0` on the 64-bit address circle, the distance
/// from `pc0` to `target0` leads from `pc` to `target`.
pub proof fn lemma_reach_64(pc0: u64, target0: u64, pc: u64, target: u64)
    requires
        (target - pc - (target0 - pc0)) % 0x1_0000_0000_0000_0000 == 0,
    ensures
        wrap64(pc + distance(pc0, target0)) == target,
{
    let turns = (target - pc - (target0 - pc0)) / 0x1_0000_0000_0000_0000;
    assert(target - pc - (target0 - pc0) == turns * 0x1_0000_0000_0000_0000);
}

/// The same for a program counter that reads `ahead` bytes ahead, rounded down to a
/// word, on the 32-bit address circle: where `pc` and `pc0` are as far apart as
/// `target` and `target0`, by a multiple of four, the distance from what `pc0` reads
/// to `target0` leads from what `pc` reads to `target`.
pub proof fn lemma_reach_32(ahead: int, pc0: u32, target0: u32, pc: u32, target: u32)
    requires
        ahead == 4 || ahead == 8,
        (pc - pc0) % 4 == 0,
        (target - pc - (target0 - pc0)) % 0x1_0000_0000 == 0,
    ensures
        wrap32(
            wrap32(pc + ahead) / 4 * 4 + distance_32(
                (wrap32(pc0 + ahead) / 4 * 4) as u32,
                target0,
            ),
        ) == target,
{
    let turns = (target - pc - (target0 - pc0)) / 0x1_0000_0000;
    assert(target - pc - (target0 - pc0) == turns * 0x1_0000_0000);
    let steps = (pc - pc0) / 4;
    assert(pc - pc0 == steps * 4);
    let read = wrap32(pc + ahead);
    let read0 = wrap32(pc0 + ahead);
    assert(read % 4 == read0 % 4);
    assert(read / 4 * 4 == read - read % 4);
    assert(read0 / 4 * 4 == read0 - read0 % 4);
}

/// Two places in a buffer are as far apart wherever the buffer stands, on the 64-bit
/// address circle.
pub proof fn lemma_apart_64(base0: u64, base: u64, at: int, slot: int)
    requires
        0 <= at <= u64::MAX,
        0 <= slot <= u64::MAX,
    ensures
        (wrap64(base + slot) - wrap64(base + at) - (wrap64(base0 + slot) - wrap64(base0 + at)))
            % 0x1_0000_0000_0000_0000 == 0,
{
}

/// Two places in a buffer are as far apart wherever the buffer stands, on the 32-bit
/// address circle; and a place keeps its place in its word where the buffer moves by
/// whole words.
pub proof fn lemma_apart_32(base0: u32, base: u32, at: int, slot: int)
    requires
        0 <= at,
        0 <= slot,
        (base - base0) % 4 == 0,
    ensures
        (address32(base, at) - address32(base0, at)) % 4 == 0,
        (address32(base, slot) - address32(base, at) - (address32(base0, slot) - address32(
            base0,
            at,
        ))) % 0x1_0000_0000 == 0,
{
    let a = address32(base, at);
    let a0 = address32(base0, at);
    let t = address32(base, slot);
    let t0 = address32(base0, slot);
    assert(a == base + at - ((base + at) / 0x1_0000_0000) * 0x1_0000_0000);
    assert(a0 == base0 + at - ((base0 + at) / 0x1_0000_0000) * 0x1_0000_0000);
    assert(t == base + slot - ((base + slot) / 0x1_0000_0000) * 0x1_0000_0000);
    assert(t0 == base0 + slot - ((base0 + slot) / 0x1_0000_0000) * 0x1_0000_0000);
}

/// Every field of the zero word is zero.
pub proof fn lemma_bits_of_zero(start: u32, end: u32)
    requires
        start < end <= 32,
    ensures
        bits(0, start, end) == 0,
{
    let m: u32 = mask((end - start) as u32);
    assert((0u32 >> start) & m == 0) by (bit_vector);
}

/// A field's value is at most the mask of its width.
pub proof fn lemma_bits_bound(raw: u32, start: u32, end: u32)
    requires
        start < end <= 32,
    ensures
        bits(raw, start, end) <= mask((end - start) as u32),
{
    let m: u32 = mask((end - start) as u32);
    assert((raw >> start) & m <= m) by (bit_vector);
}

/// Reading a field after writing it gives the low bits of what was written, and all of
/// it where it fits.
pub proof fn lemma_bits_of_with_bits(raw: u32, start: u32, end: u32, val: u32)
    requires
        start < end <= 32,
    ensures
        bits(with_bits(raw, start, end, val), start, end) == val & mask((end - start) as u32),
        val <= mask((end - start) as u32) ==> bits(with_bits(raw, start, end, val), start, end)
            == val,
{
    let w: u32 = (end - start) as u32;
    let k: u32 = (32 - w) as u32;
    let m: u32 = mask(w);
    assert(((((raw & !(m << start)) | ((val & m) << start)) >> start) & m) == val & m
        && (val <= m ==> val & m == val)) by (bit_vector)
        requires
            m == 0xffff_ffffu32 >> k,
            start <= k,
            k < 32,
    ;
}

/// Writing a field leaves every field that does not overlap it as it was.
pub proof fn lemma_bits_of_with_other_bits(
    raw: u32,
    start: u32,
    end: u32,
    val: u32,
    start2: u32,
    end2: u32,
)
    requires
        start < end <= 32,
        start2 < end2 <= 32,
        end2 <= start || end <= start2,
    ensures
        bits(with_bits(raw, start, end, val), start2, end2) == bits(raw, start2, end2),
{
    let w: u32 = (end - start) as u32;
    let k: u32 = (32 - w) as u32;
    let m: u32 = mask(w);
    let w2: u32 = (end2 - start2) as u32;
    let k2: u32 = (32 - w2) as u32;
    let m2: u32 = mask(w2);
    assert(((((raw & !(m << start)) | ((val & m) << start)) >> start2) & m2) == (raw >> start2)
        & m2) by (bit_vector)
        requires
            m == 0xffff_ffffu32 >> k,
            m2 == 0xffff_ffffu32 >> k2,
            start <= k,
            k < 32,
            start2 <= k2,
            k2 < 32,
            start2 + (32 - k2) <= start || start + (32 - k) <= start2,
    ;
}

/// A value that fits its width is read back from its two's complement pattern.
pub proof fn lemma_signed_of_unsigned(val: int, width: u32)
    requires
        2 <= width <= 32,
        fits_signed(val, width),
    ensures
        0 <= unsigned(val, width) <= mask(width),
        signed(unsigned(val, width) as u32, width) == val,
{
    lemma_mask_step(width);
}

/// A word is read back from its four bytes.
pub proof fn lemma_le32_of_le_bytes(word: u32)
    ensures
        le_bytes(word as int, 4).len() == 4,
        le32(le_bytes(word as int, 4), 0) == word,
{
}

/// Reads the field `start..end` of `raw`.
pub fn get_bits(raw: u32, start: u32, end: u32) -> (r: u32)
    requires
        start < end <= 32,
    ensures
        r == bits(raw, start, end),
        r <= mask((end - start) as u32),
{
    proof {
        lemma_bits_bound(raw, start, end);
    }
    (raw >> start) & (u32::MAX >> (32 - (end - start)))
}

/// Writes the low bits of `val` into the field `start..end` of `raw`.
pub fn set_bits(raw: u32, start: u32, end: u32, val: u32) -> (r: u32)
    requires
        start < end <= 32,
    ensures
        r == with_bits(raw, start, end, val),
{
    let m: u32 = u32::MAX >> (32 - (end - start));
    (raw & !(m << start)) | ((val & m) << start)
}

/// Writes `val` into the field `start..end` of `raw`, or refuses a value that is too
/// wide for the field.
pub fn try_set_bits(raw: u32, start: u32, end: u32, val: u32) -> (r: Option<u32>)
    requires
        start < end <= 32,
    ensures
        r is Some <==> val <= mask((end - start) as u32),
        r matches Some(w) ==> w == with_bits(raw, start, end, val) && bits(w, start, end) == val,
{
    if val > u32::MAX >> (32 - (end - start)) {
        return None;
    }
    proof {
        lemma_bits_of_with_bits(raw, start, end, val);
    }
    Some(set_bits(raw, start, end, val))
}

/// Reads the field `start..end` of `raw` as a two's complement number.
pub fn get_signed(raw: u32, start: u32, end: u32) -> (r: i32)
    requires
        start < end <= 32,
        end - start >= 2,
    ensures
        r == signed(bits(raw, start, end), (end - start) as u32),
        fits_signed(r as int, (end - start) as u32),
{
    let width: u32 = end - start;
    let v: u32 = get_bits(raw, start, end);
    let half: u32 = u32::MAX >> (33 - width);
    let full: u32 = u32::MAX >> (32 - width);
    proof {
        lemma_mask_step(width);
    }
    if v > half {
        (v as i64 - full as i64 - 1) as i32
    } else {
        v as i32
    }
}

/// Writes `val` in two's complement into the field `start..end` of `raw`, or refuses a
/// value that the field cannot hold.
pub fn try_set_signed(raw: u32, start: u32, end: u32, val: i32) -> (r: Option<u32>)
    requires
        start < end <= 32,
        end - start >= 2,
    ensures
        r is Some <==> fits_signed(val as int, (end - start) as u32),
        r matches Some(w) ==> w == with_bits(
            raw,
            start,
            end,
            unsigned(val as int, (end - start) as u32) as u32,
        ) && signed(bits(w, start, end), (end - start) as u32) == val,
{
    let width: u32 = end - start;
    let half: u32 = u32::MAX >> (33 - width);
    let full: u32 = u32::MAX >> (32 - width);
    let v: i64 = val as i64;
    if v < -(half as i64) - 1 || v > half as i64 {
        return None;
    }
    proof {
        lemma_signed_of_unsigned(val as int, width);
    }
    let pattern: u32 = if v < 0 {
        (v + full as i64 + 1) as u32
    } else {
        v as u32
    };
    proof {
        lemma_bits_of_with_bits(raw, start, end, pattern);
    }
    Some(set_bits(raw, start, end, pattern))
}

/// The address `delta` bytes from `pc`, wrapping at 64 bits.
pub fn offset64(pc: u64, delta: i64) -> (r: u64)
    ensures
        r == wrap64(pc + delta),
{
    if delta >= 0 {
        let d: u64 = delta as u64;
        if d <= u64::MAX - pc {
            pc + d
        } else {
            d - (u64::MAX - pc) - 1
        }
    } else {
        let d: u64 = if delta == i64::MIN {
            0x8000_0000_0000_0000
        } else {
            (-delta) as u64
        };
        if d <= pc {
            pc - d
        } else {
            u64::MAX - (d - pc) + 1
        }
    }
}

/// The address `by` bytes above `pc`, wrapping at 64 bits.
pub fn advance64(pc: u64, by: usize) -> (r: u64)
    ensures
        r == wrap64(pc + by),
{
    let by = by as u64;
    if by <= u64::MAX - pc {
        pc + by
    } else {
        by - (u64::MAX - pc) - 1
    }
}

/// How far `target` lies above `pc` on the 64-bit address circle.
pub fn offset_from(pc: u64, target: u64) -> (r: u64)
    ensures
        r == wrap64(target - pc),
{
    if target >= pc {
        target - pc
    } else {
        u64::MAX - (pc - target) + 1
    }
}

/// The signed distance from `pc` to `target`, wrapping at 64 bits.
pub fn distance64(pc: u64, target: u64) -> (r: i64)
    ensures
        r == distance(pc, target),
        wrap64(pc + r) == target,
{
    let forward: u64 = if target >= pc {
        target - pc
    } else {
        u64::MAX - (pc - target) + 1
    };
    if forward <= 0x7fff_ffff_ffff_ffff {
        forward as i64
    } else {
        -((u64::MAX - forward) as i64) - 1
    }
}

/// The address `by` bytes above `pc`, wrapping at 32 bits.
pub fn advance32(pc: u32, by: usize) -> (r: u32)
    ensures
        r == address32(pc, by as int),
{
    let low: u64 = by as u64 % 0x1_0000_0000;
    ((pc as u64 + low) % 0x1_0000_0000) as u32
}

/// Puts the four bytes of `word` into `buf` from `at`.
pub fn put4(buf: &mut Vec<u8>, at: usize, word: &[u8; 4])
    requires
        at + 4 <= old(buf)@.len(),
    ensures
        final(buf)@ == write4(old(buf)@, at as int, word@),
{
    let len = buf.len();
    assert(at + 4 <= len);
    buf.set(at, word[0]);
    buf.set(at + 1, word[1]);
    buf.set(at + 2, word[2]);
    buf.set(at + 3, word[3]);
    assert(buf@ =~= write4(old(buf)@, at as int, word@));
}

/// The signed distance from `pc` to `target`, wrapping at 32 bits.
pub fn distance32(pc: u32, target: u32) -> (r: i32)
    ensures
        r == distance_32(pc, target),
        wrap32(pc + r) == target,
{
    let d: i64 = target as i64 - pc as i64;
    if d > 0x7fff_ffff {
        (d - 0x1_0000_0000) as i32
    } else if d < -0x8000_0000 {
        (d + 0x1_0000_0000) as i32
    } else {
        d as i32
    }
}

/// The size of `imm`, without its sign.
pub fn magnitude(imm: i32) -> (r: u32)
    ensures
        r == (if imm >= 0 { imm as int } else { -imm }),
{
    if imm >= 0 {
        imm as u32
    } else {
        (-(imm as i64)) as u32
    }
}

/// A quarter of `diff`, where `diff` is a multiple of four.
pub fn quarter(diff: i64) -> (r: Option<i64>)
    ensures
        r is Some <==> diff % 4 == 0,
        r matches Some(q) ==> diff == 4 * q,
{
    if diff >= 0 {
        let m: u64 = diff as u64;
        if m % 4 != 0 {
            None
        } else {
            Some((m / 4) as i64)
        }
    } else {
        let m: u64 = (-(diff + 1)) as u64 + 1;
        if m % 4 != 0 {
            None
        } else {
            Some(-((m / 4) as i64))
        }
    }
}

/// The address `delta` bytes from `pc`, wrapping at 32 bits.
pub fn offset32(pc: u32, delta: i64) -> (r: u32)
    requires
        -0x1_0000_0000 <= delta <= 0x1_0000_0000,
    ensures
        r == wrap32(pc + delta),
{
    let sum: i64 = pc as i64 + delta;
    if sum < 0 {
        (sum + 0x1_0000_0000) as u32
    } else if sum > 0xffff_ffff {
        (sum - 0x1_0000_0000) as u32
    } else {
        sum as u32
    }
}

/// The little-endian word in the four bytes of `bytes` from `at`.
pub fn read_le32(bytes: &[u8], at: usize) -> (r: u32)
    requires
        at + 4 <= bytes@.len(),
    ensures
        r == le32(bytes@, at as int),
{
    bytes[at] as u32 + (bytes[at + 1] as u32) * 0x100 + (bytes[at + 2] as u32) * 0x1_0000 + (
    bytes[at + 3] as u32) * 0x100_0000
}

/// The little-endian halfword in the two bytes of `bytes` from `at`.
pub fn read_le16(bytes: &[u8], at: usize) -> (r: u32)
    requires
        at + 2 <= bytes@.len(),
    ensures
        r == le16(bytes@, at as int),
{
    bytes[at] as u32 + (bytes[at + 1] as u32) * 0x100
}

/// The four bytes of `x`, least significant first.
pub fn le32_bytes(x: u32) -> (r: [u8; 4])
    ensures
        r@ == le_bytes(x as int, 4),
        le32(r@, 0) == x,
{
    let r = [
        (x % 0x100) as u8,
        ((x / 0x100) % 0x100) as u8,
        ((x / 0x1_0000) % 0x100) as u8,
        (x / 0x100_0000) as u8,
    ];
    proof {
        assert(r@ =~= le_bytes(x as int, 4));
        lemma_le32_of_le_bytes(x);
    }
    r
}

/// The two bytes of `x`, least significant first.
pub fn le16_bytes(x: u16) -> (r: [u8; 2])
    ensures
        r@ == le_bytes(x as int, 2),
        le16(r@, 0) == x,
{
    let r = [(x % 0x100) as u8, (x / 0x100) as u8];
    proof {
        assert(r@ =~= le_bytes(x as int, 2));
    }
    r
}

/// The eight bytes of `x`, least significant first.
pub fn le64_bytes(x: u64) -> (r: [u8; 8])
    ensures
        r@ == le_bytes(x as int, 8),
{
    let r = [
        (x % 0x100) as u8,
        ((x / 0x100) % 0x100) as u8,
        ((x / 0x1_0000) % 0x100) as u8,
        ((x / 0x100_0000) % 0x100) as u8,
        ((x / 0x1_0000_0000) % 0x100) as u8,
        ((x / 0x100_0000_0000) % 0x100) as u8,
        ((x / 0x1_0000_0000_0000) % 0x100) as u8,
        (x / 0x100_0000_0000_0000) as u8,
    ];
    proof {
        assert(r@ =~= le_bytes(x as int, 8));
    }
    r
}

} // verus!
