//! The ARM (A32) instructions that the relocation engine reads and writes: a literal
//! `LDR` to emit, the loads with an immediate offset that may read the program counter,
//! and `ADR`.
//!
//! Instruction words are little-endian.

use vstd::prelude::*;
use crate::safe_jit::arm_util::EncodingError;
use crate::safe_jit::util::{
    bits, distance32, distance_32, get_bits, le32, le32_bytes, le_bytes, lemma_bits_bound,
    lemma_mask_values,
    lemma_with_bits, magnitude, offset32, read_le32, set_bits, try_set_bits, with_bits, wrap32,
};

verus! {

/// How far ahead of an instruction's address the program counter reads.
pub const PC_OFFSET: u32 = 8;

/// The number of the program counter among the registers.
pub const PC: u32 = 0b1111;

/// The disassembler's number of `LDR`.
pub const ARM_INS_LDR: u32 = 83;

/// The disassembler's number of `LDRB`.
pub const ARM_INS_LDRB: u32 = 84;

/// The disassembler's number of `LDRBT`.
pub const ARM_INS_LDRBT: u32 = 85;

/// The disassembler's number of `LDRD`.
pub const ARM_INS_LDRD: u32 = 86;

/// The disassembler's number of `LDRH`.
pub const ARM_INS_LDRH: u32 = 91;

/// The disassembler's number of `LDRHT`.
pub const ARM_INS_LDRHT: u32 = 92;

/// The disassembler's number of `LDRSB`.
pub const ARM_INS_LDRSB: u32 = 93;

/// The disassembler's number of `LDRSBT`.
pub const ARM_INS_LDRSBT: u32 = 94;

/// The disassembler's number of `LDRSH`.
pub const ARM_INS_LDRSH: u32 = 95;

/// The disassembler's number of `LDRSHT`.
pub const ARM_INS_LDRSHT: u32 = 96;

/// The disassembler's number of `LDRT`.
pub const ARM_INS_LDRT: u32 = 97;

/// The value that an instruction at `instr_pc` reads from the program counter when it
/// addresses a literal: eight bytes ahead, rounded down to a word.
pub open spec fn effective(instr_pc: u32) -> int {
    wrap32(instr_pc + PC_OFFSET) / 4 * 4
}

/// The value of the program counter as the processor reads it for a literal at
/// `instr_pc`.
pub fn effective_pc(instr_pc: u32) -> (r: u32)
    ensures
        r == effective(instr_pc),
{
    let ahead = offset32(instr_pc, 8);
    ahead - ahead % 4
}

/// `LDR` (immediate or literal) without condition and without writeback.
#[derive(Debug, Clone, Copy)]
pub struct LdrImm(pub u32);

/// The fields of an `LDR`.
pub struct LdrImmFields {
    pub imm: u32,
    pub rt: u32,
    pub rn: u32,
    pub fixed0: u32,
    pub u: u32,
    pub fixed1: u32,
}

impl View for LdrImm {
    type V = LdrImmFields;

    open spec fn view(&self) -> LdrImmFields {
        LdrImmFields {
            imm: bits(self.0, 0, 12),
            rt: bits(self.0, 12, 16),
            rn: bits(self.0, 16, 20),
            fixed0: bits(self.0, 20, 23),
            u: bits(self.0, 23, 24),
            fixed1: bits(self.0, 24, 32),
        }
    }
}

impl LdrImm {
    /// The instruction whose word is `val`.
    pub fn from_raw(val: u32) -> (r: Self)
        ensures
            r.0 == val,
    {
        LdrImm(val)
    }

    /// The word of the instruction.
    pub fn to_raw(self) -> (r: u32)
        ensures
            r == self.0,
    {
        self.0
    }

    /// The offset that the instruction adds to its base: the immediate, with the sign
    /// that the `u` bit gives.
    pub open spec fn offset(self) -> int {
        if self@.u == 1 {
            self@.imm as int
        } else {
            -(self@.imm as int)
        }
    }

    /// The address that the instruction, placed at `pc` and reading the program
    /// counter, loads from.
    pub open spec fn target(self, pc: u32) -> int {
        wrap32(effective(pc) + self.offset())
    }

    /// The word of the load into `rt` of the word `imm` bytes from `rn`.
    pub open spec fn encoded(rt: u32, rn: u32, imm: int) -> u32 {
        with_bits(
            with_bits(
                with_bits(
                    with_bits(
                        with_bits(
                            with_bits(0, 0, 12, (if imm >= 0 { imm } else { -imm }) as u32),
                            12,
                            16,
                            rt,
                        ),
                        16,
                        20,
                        rn,
                    ),
                    20,
                    23,
                    0b001,
                ),
                23,
                24,
                if imm >= 0 { 1u32 } else { 0u32 },
            ),
            24,
            32,
            0b11100101,
        )
    }

    /// The word of the load into `reg` of the word at `target`, for an instruction
    /// placed at `pc`, where the load can reach it.
    pub open spec fn encoded_lit(pc: u32, reg: u32, target: u32) -> Option<u32> {
        if reg < 16 && -0xfff <= distance_32(effective(pc) as u32, target) <= 0xfff {
            Some(Self::encoded(reg, PC, distance_32(effective(pc) as u32, target)))
        } else {
            None
        }
    }

    /// The load into `reg` of the word at `target`, for an instruction placed at `pc`.
    pub fn new_lit(pc: u32, reg: u32, target: u32) -> (r: Result<Self, EncodingError>)
        ensures
            r is Ok <==> reg < 16 && -0xfff <= distance_32(effective(pc) as u32, target) <= 0xfff,
            r matches Ok(ins) ==> ins@.rt == reg && ins@.rn == PC && ins.offset() == distance_32(
                effective(pc) as u32,
                target,
            ) && ins.target(pc) == target && ins@.fixed0 == 0b001 && ins@.fixed1 == 0b11100101
                && Self::encoded_lit(pc, reg, target) == Some(ins.0),
            r is Err ==> Self::encoded_lit(pc, reg, target) is None,
    {
        let diff = distance32(effective_pc(pc), target);
        Self::new(reg, PC, diff)
    }

    /// The load into `rt` of the word `imm` bytes from `rn`.
    pub fn new(rt: u32, rn: u32, imm: i32) -> (r: Result<Self, EncodingError>)
        ensures
            r is Ok <==> rt < 16 && rn < 16 && -0xfff <= imm <= 0xfff,
            r matches Ok(ins) ==> ins@ == (LdrImmFields {
                imm: (if imm >= 0 { imm as int } else { -imm }) as u32,
                rt,
                rn,
                fixed0: 0b001,
                u: if imm >= 0 { 1u32 } else { 0u32 },
                fixed1: 0b11100101,
            }) && ins.offset() == imm && ins.0 == Self::encoded(rt, rn, imm as int),
    {
        proof {
            lemma_mask_values();
        }
        let size = magnitude(imm);
        let u: u32 = if imm >= 0 { 1 } else { 0 };
        let w0: u32 = 0;
        let w1 = match try_set_bits(w0, 0, 12, size) {
            Some(w) => w,
            None => {
                return Err(EncodingError);
            },
        };
        let w2 = match try_set_bits(w1, 12, 16, rt) {
            Some(w) => w,
            None => {
                return Err(EncodingError);
            },
        };
        let w3 = match try_set_bits(w2, 16, 20, rn) {
            Some(w) => w,
            None => {
                return Err(EncodingError);
            },
        };
        let w4 = set_bits(w3, 20, 23, 0b001);
        let w5 = set_bits(w4, 23, 24, u);
        let w6 = set_bits(w5, 24, 32, 0b11100101);
        proof {
            lemma_with_bits(w0, 0, 12, size);
            lemma_with_bits(w1, 12, 16, rt);
            lemma_with_bits(w2, 16, 20, rn);
            lemma_with_bits(w3, 20, 23, 0b001);
            lemma_with_bits(w4, 23, 24, u);
            lemma_with_bits(w5, 24, 32, 0b11100101);
        }
        Ok(LdrImm(w6))
    }

    /// A load that is encoded is read back as it was given.
    pub proof fn lemma_encoded(rt: u32, rn: u32, imm: int)
        requires
            rt < 16,
            rn < 16,
            -0xfff <= imm <= 0xfff,
        ensures
            LdrImm(Self::encoded(rt, rn, imm))@.rt == rt,
            LdrImm(Self::encoded(rt, rn, imm))@.rn == rn,
            LdrImm(Self::encoded(rt, rn, imm)).offset() == imm,
    {
        lemma_mask_values();
        let size = (if imm >= 0 {
            imm
        } else {
            -imm
        }) as u32;
        let u = if imm >= 0 {
            1u32
        } else {
            0u32
        };
        lemma_with_bits(0, 0, 12, size);
        let w1 = with_bits(0, 0, 12, size);
        lemma_with_bits(w1, 12, 16, rt);
        let w2 = with_bits(w1, 12, 16, rt);
        lemma_with_bits(w2, 16, 20, rn);
        let w3 = with_bits(w2, 16, 20, rn);
        lemma_with_bits(w3, 20, 23, 0b001);
        let w4 = with_bits(w3, 20, 23, 0b001);
        lemma_with_bits(w4, 23, 24, u);
        let w5 = with_bits(w4, 23, 24, u);
        lemma_with_bits(w5, 24, 32, 0b11100101);
    }

    /// The load that is encoded for a target, where there is one, is a load into the
    /// register that was asked for, and reads at the target.
    pub proof fn lemma_encoded_lit(pc: u32, reg: u32, target: u32)
        ensures
            Self::encoded_lit(pc, reg, target) matches Some(word) ==> LdrImm(word)@.rt == reg
                && LdrImm(word)@.rn == PC && LdrImm(word).target(pc) == target && LdrImm(
                word,
            ).offset() == distance_32(effective(pc) as u32, target),
    {
        if Self::encoded_lit(pc, reg, target) is Some {
            Self::lemma_encoded(reg, PC, distance_32(effective(pc) as u32, target));
        }
    }

    /// The instruction as it stands in memory.
    pub fn bytes(self) -> (r: [u8; 4])
        ensures
            r@ == le_bytes(self.0 as int, 4),
            le32(r@, 0) == self.0,
    {
        le32_bytes(self.to_raw())
    }
}

/// A load with an immediate offset.
#[derive(Debug, Clone, Copy)]
pub enum LoadImm {
    /// A load of a word or an unsigned byte: a 12-bit offset in bits 0 to 11.
    WB(u32),
    /// A load of a halfword, a signed byte or a doubleword: an 8-bit offset in bits 0
    /// to 3 and 8 to 11.
    Ex(u32),
}

impl LoadImm {
    /// The instruction word.
    pub open spec fn raw(self) -> u32 {
        match self {
            LoadImm::WB(raw) => raw,
            LoadImm::Ex(raw) => raw,
        }
    }

    /// The register that is loaded.
    pub open spec fn dest(self) -> u32 {
        bits(self.raw(), 12, 16)
    }

    /// The base register.
    pub open spec fn base(self) -> u32 {
        bits(self.raw(), 16, 20)
    }

    /// The size of the offset.
    pub open spec fn imm(self) -> int {
        match self {
            LoadImm::WB(raw) => bits(raw, 0, 12) as int,
            LoadImm::Ex(raw) => bits(raw, 8, 12) * 16 + bits(raw, 0, 4),
        }
    }

    /// The offset, with the sign that the `u` bit gives.
    pub open spec fn offset(self) -> int {
        if bits(self.raw(), 23, 24) == 1 {
            self.imm()
        } else {
            -self.imm()
        }
    }

    /// The form of load that the disassembler's instruction number `instr_id` stands
    /// for, where it is a load with an immediate offset.
    pub open spec fn form(instr_id: u32, raw: u32) -> Option<LoadImm> {
        if instr_id == ARM_INS_LDR || instr_id == ARM_INS_LDRT || instr_id == ARM_INS_LDRB
            || instr_id == ARM_INS_LDRBT {
            Some(LoadImm::WB(raw))
        } else if instr_id == ARM_INS_LDRH || instr_id == ARM_INS_LDRD || instr_id
            == ARM_INS_LDRSB || instr_id == ARM_INS_LDRSH || instr_id == ARM_INS_LDRHT
            || instr_id == ARM_INS_LDRSBT || instr_id == ARM_INS_LDRSHT {
            Some(LoadImm::Ex(raw))
        } else {
            None
        }
    }

    /// Reads the four bytes of an instruction that the disassembler numbered
    /// `instr_id` as a load with an immediate offset.
    pub fn try_from_raw(instr_id: u32, bytes: &[u8]) -> (r: Option<Self>)
        ensures
            r == (if bytes@.len() == 4 {
                Self::form(instr_id, le32(bytes@, 0) as u32)
            } else {
                None
            }),
    {
        if bytes.len() != 4 {
            return None;
        }
        let raw = read_le32(bytes, 0);
        if instr_id == ARM_INS_LDR || instr_id == ARM_INS_LDRT || instr_id == ARM_INS_LDRB
            || instr_id == ARM_INS_LDRBT {
            Some(LoadImm::WB(raw))
        } else if instr_id == ARM_INS_LDRH || instr_id == ARM_INS_LDRD || instr_id
            == ARM_INS_LDRSB || instr_id == ARM_INS_LDRSH || instr_id == ARM_INS_LDRHT
            || instr_id == ARM_INS_LDRSBT || instr_id == ARM_INS_LDRSHT {
            Some(LoadImm::Ex(raw))
        } else {
            None
        }
    }

    /// The instruction word.
    fn word(&self) -> (r: u32)
        ensures
            r == self.raw(),
    {
        match self {
            LoadImm::WB(raw) => *raw,
            LoadImm::Ex(raw) => *raw,
        }
    }

    /// The number of the register that is loaded.
    pub fn rt(&self) -> (r: u32)
        ensures
            r == self.dest(),
            r < 16,
    {
        proof {
            lemma_mask_values();
        }
        get_bits(self.word(), 12, 16)
    }

    /// The address that the instruction, placed at `instr_pc`, loads from, where its
    /// base is the program counter.
    pub fn target_pc(&self, instr_pc: u32) -> (r: Option<u32>)
        ensures
            r is Some <==> self.base() == PC,
            r matches Some(t) ==> t == wrap32(effective(instr_pc) + self.offset()),
    {
        proof {
            lemma_mask_values();
        }
        let raw = self.word();
        if get_bits(raw, 16, 20) != PC {
            return None;
        }
        let pc = effective_pc(instr_pc);
        let imm: u32 = match self {
            LoadImm::WB(_) => get_bits(raw, 0, 12),
            LoadImm::Ex(_) => get_bits(raw, 8, 12) * 16 + get_bits(raw, 0, 4),
        };
        if get_bits(raw, 23, 24) == 1 {
            Some(offset32(pc, imm as i64))
        } else {
            Some(offset32(pc, -(imm as i64)))
        }
    }

    /// The same load with the loaded register as its base and no offset.
    pub open spec fn rt_load(self) -> u32 {
        match self {
            LoadImm::WB(raw) => with_bits(with_bits(raw, 16, 20, bits(raw, 12, 16)), 0, 12, 0),
            LoadImm::Ex(raw) => with_bits(
                with_bits(with_bits(raw, 16, 20, bits(raw, 12, 16)), 0, 4, 0),
                8,
                12,
                0,
            ),
        }
    }

    /// The word of the same load with the loaded register as its base and no offset.
    pub fn rt_load_word(&self) -> (r: u32)
        ensures
            r == self.rt_load(),
    {
        let rt = self.rt();
        match self {
            LoadImm::WB(raw) => set_bits(set_bits(*raw, 16, 20, rt), 0, 12, 0),
            LoadImm::Ex(raw) => set_bits(set_bits(set_bits(*raw, 16, 20, rt), 0, 4, 0), 8, 12, 0),
        }
    }

    /// Hands `f` the bytes of the same load with the loaded register as its base and
    /// no offset, and gives what `f` gives.
    pub fn as_rt_load<R, F: FnOnce(&[u8]) -> R>(&self, f: F) -> (r: R)
        requires
            forall|b: &[u8]| b@ == le_bytes(self.rt_load() as int, 4) ==> f.requires((b,)),
        ensures
            exists|b: &[u8]| b@ == le_bytes(self.rt_load() as int, 4) && f.ensures((b,), r),
    {
        let bytes = le32_bytes(self.rt_load_word());
        f(bytes.as_slice())
    }
}

/// The rewritten load reads through the register it loads: its base is its
/// destination, its offset is zero, and the destination and the direction bit are
/// those of the load it was made from.
pub proof fn lemma_rt_load_fields(load: LoadImm)
    ensures
        ({
            let new = match load {
                LoadImm::WB(_) => LoadImm::WB(load.rt_load()),
                LoadImm::Ex(_) => LoadImm::Ex(load.rt_load()),
            };
            &&& new.base() == load.dest()
            &&& new.dest() == load.dest()
            &&& new.imm() == 0
            &&& bits(new.raw(), 20, 32) == bits(load.raw(), 20, 32)
        }),
{
    lemma_mask_values();
    let raw = load.raw();
    let rt = bits(raw, 12, 16);
    lemma_bits_bound(raw, 12, 16);
    let w1 = with_bits(raw, 16, 20, rt);
    lemma_with_bits(raw, 16, 20, rt);
    match load {
        LoadImm::WB(_) => {
            lemma_with_bits(w1, 0, 12, 0);
        },
        LoadImm::Ex(_) => {
            let w2 = with_bits(w1, 0, 4, 0);
            lemma_with_bits(w1, 0, 4, 0);
            lemma_with_bits(w2, 8, 12, 0);
        },
    }
}

/// `ADR`: form the address at an offset from the program counter, as an `ADD` or a
/// `SUB` of a rotated 8-bit immediate.
#[derive(Debug, Clone, Copy)]
pub struct Adr(pub u32);

/// The fields of an `ADR`.
pub struct AdrFields {
    pub imm: u32,
    pub rot: u32,
    pub rd: u32,
    pub pc: u32,
    pub fixed0: u32,
    pub sign: u32,
    pub fixed1: u32,
}

impl View for Adr {
    type V = AdrFields;

    open spec fn view(&self) -> AdrFields {
        AdrFields {
            imm: bits(self.0, 0, 8),
            rot: bits(self.0, 8, 12),
            rd: bits(self.0, 12, 16),
            pc: bits(self.0, 16, 20),
            fixed0: bits(self.0, 20, 22),
            sign: bits(self.0, 22, 24),
            fixed1: bits(self.0, 24, 32),
        }
    }
}

/// `x` rotated right by `by` bits, for `by < 32`.
pub open spec fn rotated(x: u32, by: u32) -> u32 {
    if by == 0 {
        x
    } else {
        (x >> by) | (x << ((32 - by) as u32))
    }
}

impl Adr {
    /// The instruction whose word is `val`.
    pub fn from_raw(val: u32) -> (r: Self)
        ensures
            r.0 == val,
    {
        Adr(val)
    }

    /// The word of the instruction.
    pub fn to_raw(self) -> (r: u32)
        ensures
            r == self.0,
    {
        self.0
    }

    /// The word is an `ADR`: an unconditional `ADD` or `SUB` of an immediate to the
    /// program counter that sets no flags.
    pub open spec fn is_adr(raw: u32) -> bool {
        &&& (bits(raw, 22, 24) == 0b01 || bits(raw, 22, 24) == 0b10)
        &&& bits(raw, 16, 20) == PC
        &&& bits(raw, 20, 22) == 0
        &&& bits(raw, 24, 32) == 0b11100010
    }

    /// The size of the offset: the immediate rotated right by twice `rot`.
    pub open spec fn disp(self) -> u32 {
        rotated(self@.imm, (2 * self@.rot) as u32)
    }

    /// The address that the instruction, placed at `instr_pc`, forms.
    pub open spec fn target(self, instr_pc: u32) -> int {
        if self@.sign == 0b10 {
            wrap32(wrap32(instr_pc + PC_OFFSET) + self.disp())
        } else {
            wrap32(wrap32(instr_pc + PC_OFFSET) - self.disp())
        }
    }

    /// Reads the four bytes of an instruction as an `ADR`.
    pub fn try_from_raw(bytes: &[u8]) -> (r: Option<Self>)
        ensures
            r is Some <==> bytes@.len() == 4 && Self::is_adr(le32(bytes@, 0) as u32),
            r matches Some(ins) ==> ins.0 == le32(bytes@, 0),
    {
        if bytes.len() != 4 {
            return None;
        }
        let raw = read_le32(bytes, 0);
        let sign = get_bits(raw, 22, 24);
        let is_ok = (sign == 0b01 || sign == 0b10) && get_bits(raw, 16, 20) == PC && get_bits(
            raw,
            20,
            22,
        ) == 0 && get_bits(raw, 24, 32) == 0b11100010;
        if is_ok {
            Some(Adr(raw))
        } else {
            None
        }
    }

    /// The number of the register that takes the address.
    pub fn dest_reg(&self) -> (r: u32)
        ensures
            r == self@.rd,
            r < 16,
    {
        proof {
            lemma_mask_values();
        }
        get_bits(self.0, 12, 16)
    }

    /// The address that the instruction refers to where it is placed at the given
    /// address.
    pub fn target_pc(&self, instr_pc: u32) -> (r: u32)
        ensures
            r == self.target(instr_pc),
    {
        proof {
            lemma_mask_values();
        }
        let imm = get_bits(self.0, 0, 8);
        let by = 2 * get_bits(self.0, 8, 12);
        let disp: u32 = if by == 0 {
            imm
        } else {
            (imm >> by) | (imm << (32 - by))
        };
        let base = offset32(instr_pc, 8);
        if get_bits(self.0, 22, 24) == 0b10 {
            offset32(base, disp as i64)
        } else {
            offset32(base, -(disp as i64))
        }
    }
}

} // verus!
