//! The Thumb instructions that the relocation engine reads and writes: a wide literal
//! `LDR` to emit, the loads that may read the program counter, and `ADR`.
//!
//! A narrow instruction is one little-endian halfword, held in the low half of a word.
//! A wide instruction is two: the first is the low half of the word, so that the word
//! is the little-endian reading of the four bytes.

use vstd::prelude::*;
use crate::safe_jit::arm_util::EncodingError;
use crate::safe_jit::arm_util::encoding_arm::{
    ARM_INS_LDR, ARM_INS_LDRB, ARM_INS_LDRBT, ARM_INS_LDRD, ARM_INS_LDRH, ARM_INS_LDRHT,
    ARM_INS_LDRSB, ARM_INS_LDRSBT, ARM_INS_LDRSH, ARM_INS_LDRSHT, ARM_INS_LDRT, PC,
};
use crate::safe_jit::util::{
    bits, distance32, distance_32, get_bits, le16, le16_bytes, le32, le32_bytes, le_bytes,
    lemma_bits_of_zero, lemma_mask_values, lemma_with_bits, magnitude, offset32, read_le16,
    read_le32, set_bits, try_set_bits, with_bits, wrap32,
};

verus! {

/// How far ahead of an instruction's address the program counter reads.
pub const PC_OFFSET: u32 = 4;

/// The value that an instruction at `instr_pc` reads from the program counter when it
/// addresses a literal: four bytes ahead, rounded down to a word.
pub open spec fn effective(instr_pc: u32) -> int {
    wrap32(instr_pc + PC_OFFSET) / 4 * 4
}

/// The value of the program counter as the processor reads it for a literal at
/// `instr_pc`.
pub fn effective_pc(instr_pc: u32) -> (r: u32)
    ensures
        r == effective(instr_pc),
{
    let ahead = offset32(instr_pc, 4);
    ahead - ahead % 4
}

/// `LDR.W` (immediate or literal) without writeback.
#[derive(Debug, Clone, Copy)]
pub struct LdrImm(pub u32);

/// The fields of an `LDR.W`.
pub struct LdrImmFields {
    pub rn: u32,
    pub fixed0: u32,
    pub u: u32,
    pub fixed1: u32,
    pub imm: u32,
    pub rt: u32,
}

impl View for LdrImm {
    type V = LdrImmFields;

    open spec fn view(&self) -> LdrImmFields {
        LdrImmFields {
            rn: bits(self.0, 0, 4),
            fixed0: bits(self.0, 4, 7),
            u: bits(self.0, 7, 8),
            fixed1: bits(self.0, 8, 16),
            imm: bits(self.0, 16, 28),
            rt: bits(self.0, 28, 32),
        }
    }
}

impl LdrImm {
    /// The instruction whose word is `val`.
    pub fn from_raw(val: u32) -> (r: Self)
        ensures
            r.0 == val,
    {
        LdrImm(val)
    }

    /// The word of the instruction.
    pub fn to_raw(self) -> (r: u32)
        ensures
            r == self.0,
    {
        self.0
    }

    /// The offset that the instruction adds to its base: the immediate, with the sign
    /// that the `u` bit gives.
    pub open spec fn offset(self) -> int {
        if self@.u == 1 {
            self@.imm as int
        } else {
            -(self@.imm as int)
        }
    }

    /// The address that the instruction, placed at `pc` and reading the program
    /// counter, loads from.
    pub open spec fn target(self, pc: u32) -> int {
        wrap32(effective(pc) + self.offset())
    }

    /// The word of the load into `rt` of the word `imm` bytes from `rn`.
    pub open spec fn encoded(rt: u32, rn: u32, imm: int) -> u32 {
        with_bits(
            with_bits(
                with_bits(
                    with_bits(
                        with_bits(
                            with_bits(0, 16, 28, (if imm >= 0 { imm } else { -imm }) as u32),
                            28,
                            32,
                            rt,
                        ),
                        0,
                        4,
                        rn,
                    ),
                    4,
                    7,
                    0b101,
                ),
                7,
                8,
                if imm >= 0 { 1u32 } else { 0u32 },
            ),
            8,
            16,
            0b11111000,
        )
    }

    /// The word of the load into `reg` of the word at `target`, for an instruction
    /// placed at `pc`, where the load can reach it.
    pub open spec fn encoded_lit(pc: u32, reg: u32, target: u32) -> Option<u32> {
        if reg < 16 && -0xfff <= distance_32(effective(pc) as u32, target) <= 0xfff {
            Some(Self::encoded(reg, PC, distance_32(effective(pc) as u32, target)))
        } else {
            None
        }
    }

    /// The load into `reg` of the word at `target`, for an instruction placed at `pc`.
    pub fn new_lit(pc: u32, reg: u32, target: u32) -> (r: Result<Self, EncodingError>)
        ensures
            r is Ok <==> reg < 16 && -0xfff <= distance_32(effective(pc) as u32, target) <= 0xfff,
            r matches Ok(ins) ==> ins@.rt == reg && ins@.rn == PC && ins.offset() == distance_32(
                effective(pc) as u32,
                target,
            ) && ins.target(pc) == target && ins@.fixed0 == 0b101 && ins@.fixed1 == 0b11111000
                && Self::encoded_lit(pc, reg, target) == Some(ins.0),
            r is Err ==> Self::encoded_lit(pc, reg, target) is None,
    {
        let diff = distance32(effective_pc(pc), target);
        Self::new(reg, PC, diff)
    }

    /// The load into `rt` of the word `imm` bytes from `rn`. Only the program counter
    /// takes an offset below zero.
    pub fn new(rt: u32, rn: u32, imm: i32) -> (r: Result<Self, EncodingError>)
        ensures
            r is Ok <==> rt < 16 && rn < 16 && -0xfff <= imm <= 0xfff && (rn == PC || imm >= 0),
            r matches Ok(ins) ==> ins@ == (LdrImmFields {
                rn,
                fixed0: 0b101,
                u: if imm >= 0 { 1u32 } else { 0u32 },
                fixed1: 0b11111000,
                imm: (if imm >= 0 { imm as int } else { -imm }) as u32,
                rt,
            }) && ins.offset() == imm && ins.0 == Self::encoded(rt, rn, imm as int),
    {
        proof {
            lemma_mask_values();
        }
        if rn != PC && imm < 0 {
            return Err(EncodingError);
        }
        let size = magnitude(imm);
        let u: u32 = if imm >= 0 { 1 } else { 0 };
        let w0: u32 = 0;
        let w1 = match try_set_bits(w0, 16, 28, size) {
            Some(w) => w,
            None => {
                return Err(EncodingError);
            },
        };
        let w2 = match try_set_bits(w1, 28, 32, rt) {
            Some(w) => w,
            None => {
                return Err(EncodingError);
            },
        };
        let w3 = match try_set_bits(w2, 0, 4, rn) {
            Some(w) => w,
            None => {
                return Err(EncodingError);
            },
        };
        let w4 = set_bits(w3, 4, 7, 0b101);
        let w5 = set_bits(w4, 7, 8, u);
        let w6 = set_bits(w5, 8, 16, 0b11111000);
        proof {
            lemma_with_bits(w0, 16, 28, size);
            lemma_with_bits(w1, 28, 32, rt);
            lemma_with_bits(w2, 0, 4, rn);
            lemma_with_bits(w3, 4, 7, 0b101);
            lemma_with_bits(w4, 7, 8, u);
            lemma_with_bits(w5, 8, 16, 0b11111000);
        }
        Ok(LdrImm(w6))
    }

    /// A load that is encoded is read back as it was given.
    pub proof fn lemma_encoded(rt: u32, rn: u32, imm: int)
        requires
            rt < 16,
            rn < 16,
            -0xfff <= imm <= 0xfff,
        ensures
            LdrImm(Self::encoded(rt, rn, imm))@.rt == rt,
            LdrImm(Self::encoded(rt, rn, imm))@.rn == rn,
            LdrImm(Self::encoded(rt, rn, imm)).offset() == imm,
    {
        lemma_mask_values();
        let size = (if imm >= 0 {
            imm
        } else {
            -imm
        }) as u32;
        let u = if imm >= 0 {
            1u32
        } else {
            0u32
        };
        lemma_with_bits(0, 16, 28, size);
        let w1 = with_bits(0, 16, 28, size);
        lemma_with_bits(w1, 28, 32, rt);
        let w2 = with_bits(w1, 28, 32, rt);
        lemma_with_bits(w2, 0, 4, rn);
        let w3 = with_bits(w2, 0, 4, rn);
        lemma_with_bits(w3, 4, 7, 0b101);
        let w4 = with_bits(w3, 4, 7, 0b101);
        lemma_with_bits(w4, 7, 8, u);
        let w5 = with_bits(w4, 7, 8, u);
        lemma_with_bits(w5, 8, 16, 0b11111000);
    }

    /// The load that is encoded for a target, where there is one, is a load into the
    /// register that was asked for, and reads at the target.
    pub proof fn lemma_encoded_lit(pc: u32, reg: u32, target: u32)
        ensures
            Self::encoded_lit(pc, reg, target) matches Some(word) ==> LdrImm(word)@.rt == reg
                && LdrImm(word)@.rn == PC && LdrImm(word).target(pc) == target && LdrImm(
                word,
            ).offset() == distance_32(effective(pc) as u32, target),
    {
        if Self::encoded_lit(pc, reg, target) is Some {
            Self::lemma_encoded(reg, PC, distance_32(effective(pc) as u32, target));
        }
    }

    /// The instruction as it stands in memory.
    pub fn bytes(self) -> (r: [u8; 4])
        ensures
            r@ == le_bytes(self.0 as int, 4),
            le32(r@, 0) == self.0,
    {
        le32_bytes(self.to_raw())
    }
}

/// A load that may address a literal.
#[derive(Debug, Clone, Copy)]
pub enum LoadImm {
    /// The narrow `LDR` (literal): destination in bits 8 to 10, a word offset in bits 0
    /// to 7.
    LdrLitT1(u32),
    /// A wide load of a word, a byte or a halfword: a 12-bit offset.
    LdrW(u32),
    /// A wide unprivileged load: an 8-bit offset.
    LdrT(u32),
    /// A wide load of a doubleword: an 8-bit word offset.
    LdrD(u32),
}

impl LoadImm {
    /// The instruction word.
    pub open spec fn raw(self) -> u32 {
        match self {
            LoadImm::LdrLitT1(raw) => raw,
            LoadImm::LdrW(raw) => raw,
            LoadImm::LdrT(raw) => raw,
            LoadImm::LdrD(raw) => raw,
        }
    }

    /// The register that is loaded.
    pub open spec fn dest(self) -> u32 {
        match self {
            LoadImm::LdrLitT1(raw) => bits(raw, 8, 11),
            _ => bits(self.raw(), 28, 32),
        }
    }

    /// Whether the load addresses a literal: the narrow form always does, a wide
    /// form where its base is the program counter.
    pub open spec fn is_literal(self) -> bool {
        match self {
            LoadImm::LdrLitT1(_) => true,
            _ => bits(self.raw(), 0, 4) == PC,
        }
    }

    /// The offset in bytes, with its sign.
    pub open spec fn offset(self) -> int {
        match self {
            LoadImm::LdrLitT1(raw) => bits(raw, 0, 8) * 4,
            LoadImm::LdrW(raw) => if bits(raw, 7, 8) == 1 {
                bits(raw, 16, 28) as int
            } else {
                -(bits(raw, 16, 28) as int)
            },
            LoadImm::LdrT(raw) => bits(raw, 16, 24) as int,
            LoadImm::LdrD(raw) => if bits(raw, 7, 8) == 1 {
                bits(raw, 16, 24) * 4
            } else {
                -(bits(raw, 16, 24) * 4)
            },
        }
    }

    /// The form of load that the disassembler's instruction number `instr_id` stands
    /// for among the wide instructions.
    pub open spec fn wide_form(instr_id: u32, raw: u32) -> Option<LoadImm> {
        if instr_id == ARM_INS_LDR || instr_id == ARM_INS_LDRB || instr_id == ARM_INS_LDRH
            || instr_id == ARM_INS_LDRSB || instr_id == ARM_INS_LDRSH {
            Some(LoadImm::LdrW(raw))
        } else if instr_id == ARM_INS_LDRT || instr_id == ARM_INS_LDRBT || instr_id
            == ARM_INS_LDRHT || instr_id == ARM_INS_LDRSBT || instr_id == ARM_INS_LDRSHT {
            Some(LoadImm::LdrT(raw))
        } else if instr_id == ARM_INS_LDRD {
            Some(LoadImm::LdrD(raw))
        } else {
            None
        }
    }

    /// What the bytes of an instruction that the disassembler numbered `instr_id` are
    /// read as: two bytes as the narrow literal load where their top five bits are
    /// `01001`, four bytes by the instruction's number.
    pub open spec fn form(instr_id: u32, bytes: Seq<u8>) -> Option<LoadImm> {
        if bytes.len() == 2 {
            if bits(le16(bytes, 0) as u32, 11, 16) == 0b01001 {
                Some(LoadImm::LdrLitT1(le16(bytes, 0) as u32))
            } else {
                None
            }
        } else if bytes.len() == 4 {
            Self::wide_form(instr_id, le32(bytes, 0) as u32)
        } else {
            None
        }
    }

    /// Reads the bytes of an instruction that the disassembler numbered `instr_id` as a
    /// load that may address a literal.
    pub fn try_from_raw(instr_id: u32, bytes: &[u8]) -> (r: Option<Self>)
        ensures
            r == Self::form(instr_id, bytes@),
    {
        if bytes.len() == 2 {
            let raw = read_le16(bytes, 0);
            if get_bits(raw, 11, 16) == 0b01001 {
                Some(LoadImm::LdrLitT1(raw))
            } else {
                None
            }
        } else if bytes.len() == 4 {
            let raw = read_le32(bytes, 0);
            if instr_id == ARM_INS_LDR || instr_id == ARM_INS_LDRB || instr_id == ARM_INS_LDRH
                || instr_id == ARM_INS_LDRSB || instr_id == ARM_INS_LDRSH {
                Some(LoadImm::LdrW(raw))
            } else if instr_id == ARM_INS_LDRT || instr_id == ARM_INS_LDRBT || instr_id
                == ARM_INS_LDRHT || instr_id == ARM_INS_LDRSBT || instr_id == ARM_INS_LDRSHT {
                Some(LoadImm::LdrT(raw))
            } else if instr_id == ARM_INS_LDRD {
                Some(LoadImm::LdrD(raw))
            } else {
                None
            }
        } else {
            None
        }
    }

    /// The instruction word.
    fn word(&self) -> (r: u32)
        ensures
            r == self.raw(),
    {
        match self {
            LoadImm::LdrLitT1(raw) => *raw,
            LoadImm::LdrW(raw) => *raw,
            LoadImm::LdrT(raw) => *raw,
            LoadImm::LdrD(raw) => *raw,
        }
    }

    /// The number of the register that is loaded.
    pub fn rt(&self) -> (r: u32)
        ensures
            r == self.dest(),
            r < 16,
    {
        proof {
            lemma_mask_values();
        }
        match self {
            LoadImm::LdrLitT1(raw) => get_bits(*raw, 8, 11),
            LoadImm::LdrW(raw) => get_bits(*raw, 28, 32),
            LoadImm::LdrT(raw) => get_bits(*raw, 28, 32),
            LoadImm::LdrD(raw) => get_bits(*raw, 28, 32),
        }
    }

    /// The address that the instruction, placed at `instr_pc`, loads from, where it
    /// addresses a literal.
    pub fn target_pc(&self, instr_pc: u32) -> (r: Option<u32>)
        ensures
            r is Some <==> self.is_literal(),
            r matches Some(t) ==> t == wrap32(effective(instr_pc) + self.offset()),
    {
        proof {
            lemma_mask_values();
        }
        let pc = effective_pc(instr_pc);
        match self {
            LoadImm::LdrLitT1(raw) => Some(offset32(pc, get_bits(*raw, 0, 8) as i64 * 4)),
            LoadImm::LdrW(raw) => {
                if get_bits(*raw, 0, 4) != PC {
                    None
                } else if get_bits(*raw, 7, 8) == 1 {
                    Some(offset32(pc, get_bits(*raw, 16, 28) as i64))
                } else {
                    Some(offset32(pc, -(get_bits(*raw, 16, 28) as i64)))
                }
            },
            LoadImm::LdrT(raw) => {
                if get_bits(*raw, 0, 4) != PC {
                    None
                } else {
                    Some(offset32(pc, get_bits(*raw, 16, 24) as i64))
                }
            },
            LoadImm::LdrD(raw) => {
                if get_bits(*raw, 0, 4) != PC {
                    None
                } else if get_bits(*raw, 7, 8) == 1 {
                    Some(offset32(pc, get_bits(*raw, 16, 24) as i64 * 4))
                } else {
                    Some(offset32(pc, -(get_bits(*raw, 16, 24) as i64 * 4)))
                }
            },
        }
    }

    /// The load through the loaded register with no offset: for the narrow literal
    /// load the narrow `LDR` (immediate), for a wide load the same word with the base,
    /// the offset and the direction bit set anew.
    pub open spec fn rt_load(self) -> u32 {
        match self {
            LoadImm::LdrLitT1(raw) => with_bits(
                with_bits(with_bits(0, 0, 3, bits(raw, 8, 11)), 3, 6, bits(raw, 8, 11)),
                11,
                16,
                0b01101,
            ),
            LoadImm::LdrW(raw) => with_bits(
                with_bits(with_bits(raw, 0, 4, bits(raw, 28, 32)), 16, 28, 0),
                7,
                8,
                1,
            ),
            LoadImm::LdrT(raw) => with_bits(with_bits(raw, 0, 4, bits(raw, 28, 32)), 16, 24, 0),
            LoadImm::LdrD(raw) => with_bits(
                with_bits(with_bits(raw, 0, 4, bits(raw, 28, 32)), 16, 24, 0),
                7,
                8,
                1,
            ),
        }
    }

    /// The bytes of `rt_load`: two for the narrow form, four for a wide one.
    pub open spec fn rt_load_bytes(self) -> Seq<u8> {
        match self {
            LoadImm::LdrLitT1(_) => le_bytes(self.rt_load() as int, 2),
            _ => le_bytes(self.rt_load() as int, 4),
        }
    }

    /// The bytes of the load through the loaded register with no offset.
    pub fn rt_load_vec(&self) -> (r: Vec<u8>)
        ensures
            r@ == self.rt_load_bytes(),
    {
        proof {
            lemma_mask_values();
        }
        let rt = self.rt();
        let mut out: Vec<u8> = Vec::new();
        match self {
            LoadImm::LdrLitT1(_) => {
                let w1 = set_bits(0, 0, 3, rt);
                let w2 = set_bits(w1, 3, 6, rt);
                let w3 = set_bits(w2, 11, 16, 0b01101);
                proof {
                    lemma_with_bits(0, 0, 3, rt);
                    lemma_with_bits(w1, 3, 6, rt);
                    lemma_with_bits(w2, 11, 16, 0b01101);
                    lemma_bits_of_zero(16, 32);
                    lemma_narrow(w3);
                }
                let bytes = le16_bytes(w3 as u16);
                out.extend_from_slice(bytes.as_slice());
            },
            LoadImm::LdrW(raw) => {
                let word = set_bits(set_bits(set_bits(*raw, 0, 4, rt), 16, 28, 0), 7, 8, 1);
                let bytes = le32_bytes(word);
                out.extend_from_slice(bytes.as_slice());
            },
            LoadImm::LdrT(raw) => {
                let word = set_bits(set_bits(*raw, 0, 4, rt), 16, 24, 0);
                let bytes = le32_bytes(word);
                out.extend_from_slice(bytes.as_slice());
            },
            LoadImm::LdrD(raw) => {
                let word = set_bits(set_bits(set_bits(*raw, 0, 4, rt), 16, 24, 0), 7, 8, 1);
                let bytes = le32_bytes(word);
                out.extend_from_slice(bytes.as_slice());
            },
        }
        out
    }

    /// Hands `f` the bytes of the load through the loaded register with no offset, and
    /// gives what `f` gives.
    pub fn as_rt_load<R, F: FnOnce(&[u8]) -> R>(&self, f: F) -> (r: R)
        requires
            forall|b: &[u8]| b@ == self.rt_load_bytes() ==> f.requires((b,)),
        ensures
            exists|b: &[u8]| b@ == self.rt_load_bytes() && f.ensures((b,), r),
    {
        let bytes = self.rt_load_vec();
        f(bytes.as_slice())
    }
}

/// A word whose upper half is clear fits a halfword.
proof fn lemma_narrow(w: u32)
    requires
        bits(w, 16, 32) == 0,
    ensures
        w <= 0xffff,
{
    lemma_mask_values();
    assert(((w >> 16u32) & 0xffffu32) == 0 ==> w <= 0xffff) by (bit_vector);
}

/// `ADR`: form the address at an offset from the program counter.
#[derive(Debug, Clone, Copy)]
pub enum Adr {
    /// The narrow form: destination in bits 8 to 10, a word offset in bits 0 to 7.
    T1(u32),
    /// The wide forms, which add or take off a 12-bit offset.
    T23(u32),
}

impl Adr {
    /// The instruction word.
    pub open spec fn raw(self) -> u32 {
        match self {
            Adr::T1(raw) => raw,
            Adr::T23(raw) => raw,
        }
    }

    /// The halfword is a narrow `ADR`: its top five bits are `10100`.
    pub open spec fn is_narrow_adr(raw: u32) -> bool {
        bits(raw, 11, 16) == 0b10100
    }

    /// The word is a wide `ADR`: `11110 i 1 0 s 0 s 0 1111` in the first halfword, with
    /// both `s` alike, and `0 imm3 rd imm8` in the second.
    pub open spec fn is_wide_adr(raw: u32) -> bool {
        &&& bits(raw, 0, 4) == PC
        &&& bits(raw, 4, 5) == 0
        &&& bits(raw, 6, 7) == 0
        &&& bits(raw, 8, 10) == 0b10
        &&& bits(raw, 11, 16) == 0b11110
        &&& bits(raw, 31, 32) == 0
        &&& bits(raw, 5, 6) == bits(raw, 7, 8)
    }

    /// What the bytes of an instruction are read as.
    pub open spec fn form(bytes: Seq<u8>) -> Option<Adr> {
        if bytes.len() == 2 {
            if Self::is_narrow_adr(le16(bytes, 0) as u32) {
                Some(Adr::T1(le16(bytes, 0) as u32))
            } else {
                None
            }
        } else if bytes.len() == 4 {
            if Self::is_wide_adr(le32(bytes, 0) as u32) {
                Some(Adr::T23(le32(bytes, 0) as u32))
            } else {
                None
            }
        } else {
            None
        }
    }

    /// The register that takes the address.
    pub open spec fn dest(self) -> u32 {
        match self {
            Adr::T1(raw) => bits(raw, 8, 11),
            Adr::T23(raw) => bits(raw, 24, 28),
        }
    }

    /// The offset in bytes, with its sign.
    pub open spec fn offset(self) -> int {
        match self {
            Adr::T1(raw) => bits(raw, 0, 8) * 4,
            Adr::T23(raw) => {
                let size = bits(raw, 10, 11) * 0x800 + bits(raw, 28, 31) * 0x100 + bits(
                    raw,
                    16,
                    24,
                );
                if bits(raw, 5, 6) == 0 {
                    size
                } else {
                    -size
                }
            },
        }
    }

    /// The address that the instruction, placed at `instr_pc`, forms.
    pub open spec fn target(self, instr_pc: u32) -> int {
        wrap32(effective(instr_pc) + self.offset())
    }

    /// Reads the bytes of an instruction as an `ADR`.
    pub fn try_from_raw(bytes: &[u8]) -> (r: Option<Self>)
        ensures
            r == Self::form(bytes@),
    {
        if bytes.len() == 2 {
            let raw = read_le16(bytes, 0);
            if get_bits(raw, 11, 16) == 0b10100 {
                Some(Adr::T1(raw))
            } else {
                None
            }
        } else if bytes.len() == 4 {
            let raw = read_le32(bytes, 0);
            let fixed = get_bits(raw, 0, 4) == PC && get_bits(raw, 4, 5) == 0 && get_bits(
                raw,
                6,
                7,
            ) == 0 && get_bits(raw, 8, 10) == 0b10 && get_bits(raw, 11, 16) == 0b11110
                && get_bits(raw, 31, 32) == 0;
            if fixed && get_bits(raw, 5, 6) == get_bits(raw, 7, 8) {
                Some(Adr::T23(raw))
            } else {
                None
            }
        } else {
            None
        }
    }

    /// The number of the register that takes the address.
    pub fn dest_reg(&self) -> (r: u32)
        ensures
            r == self.dest(),
            r < 16,
    {
        proof {
            lemma_mask_values();
        }
        match self {
            Adr::T1(raw) => get_bits(*raw, 8, 11),
            Adr::T23(raw) => get_bits(*raw, 24, 28),
        }
    }

    /// The address that the instruction refers to where it is placed at the given
    /// address.
    pub fn target_pc(&self, instr_pc: u32) -> (r: u32)
        ensures
            r == self.target(instr_pc),
    {
        proof {
            lemma_mask_values();
        }
        let pc = effective_pc(instr_pc);
        match self {
            Adr::T1(raw) => offset32(pc, get_bits(*raw, 0, 8) as i64 * 4),
            Adr::T23(raw) => {
                let size: u32 = get_bits(*raw, 10, 11) * 0x800 + get_bits(*raw, 28, 31) * 0x100
                    + get_bits(*raw, 16, 24);
                if get_bits(*raw, 5, 6) == 0 {
                    offset32(pc, size as i64)
                } else {
                    offset32(pc, -(size as i64))
                }
            },
        }
    }
}

} // verus!
