//! The AArch64 instructions that the relocation engine reads and writes: `LDR`
//! (literal), `ADR` / `ADRP`, `B`, and `LDR` (immediate, unsigned offset).

use vstd::prelude::*;
use crate::safe_jit::util::{
    bits, distance, distance64, get_bits, get_signed, lemma_mask_values,
    lemma_signed_of_unsigned, lemma_with_bits, offset64, quarter, set_bits, signed, try_set_bits,
    try_set_signed, unsigned, with_bits, wrap64,
};

verus! {

/// An operand does not fit its field.
#[derive(Debug, Clone, Copy)]
pub struct Error;

/// What an `LDR` (literal) loads.
#[derive(Debug, Clone, Copy, PartialEq, Eq, Structural)]
pub enum LdrImmOpc {
    Load32,
    Load64,
    Load32Sx,
    Prefetch,
}

impl LdrImmOpc {
    /// The two bits that stand for the variant.
    pub open spec fn code(self) -> u32 {
        match self {
            LdrImmOpc::Load32 => 0,
            LdrImmOpc::Load64 => 1,
            LdrImmOpc::Load32Sx => 2,
            LdrImmOpc::Prefetch => 3,
        }
    }

    /// The variant that the two bits `code` stand for.
    pub open spec fn of_code(code: u32) -> LdrImmOpc {
        if code == 0 {
            LdrImmOpc::Load32
        } else if code == 1 {
            LdrImmOpc::Load64
        } else if code == 2 {
            LdrImmOpc::Load32Sx
        } else {
            LdrImmOpc::Prefetch
        }
    }

    /// The two bits that stand for the variant.
    fn to_code(self) -> (r: u32)
        ensures
            r == self.code(),
    {
        match self {
            LdrImmOpc::Load32 => 0,
            LdrImmOpc::Load64 => 1,
            LdrImmOpc::Load32Sx => 2,
            LdrImmOpc::Prefetch => 3,
        }
    }
}

/// `LDR` (literal): load from a word offset relative to the instruction.
#[derive(Debug, Clone, Copy)]
pub struct LdrImm(pub u32);

/// The fields of an `LDR` (literal).
pub struct LdrImmFields {
    pub reg: u32,
    pub imm: int,
    pub fixed: u32,
    pub opc: u32,
}

impl View for LdrImm {
    type V = LdrImmFields;

    open spec fn view(&self) -> LdrImmFields {
        LdrImmFields {
            reg: bits(self.0, 0, 5),
            imm: signed(bits(self.0, 5, 24), 19),
            fixed: bits(self.0, 24, 30),
            opc: bits(self.0, 30, 32),
        }
    }
}

impl LdrImm {
    /// The instruction whose word is `val`.
    pub fn from_raw(val: u32) -> (r: Self)
        ensures
            r.0 == val,
    {
        LdrImm(val)
    }

    /// The word of the instruction.
    pub fn to_raw(self) -> (r: u32)
        ensures
            r == self.0,
    {
        self.0
    }

    /// The number of the register that the instruction writes.
    pub fn reg(&self) -> (r: u32)
        ensures
            r == self@.reg,
            r < 32,
    {
        proof {
            lemma_mask_values();
        }
        get_bits(self.0, 0, 5)
    }

    /// The immediate of the instruction.
    pub fn imm(&self) -> (r: i32)
        ensures
            r == self@.imm,
            -0x4_0000 <= r < 0x4_0000,
    {
        proof {
            lemma_mask_values();
        }
        get_signed(self.0, 5, 24)
    }

    /// The fixed bits, which tell the instruction.
    fn fixed(&self) -> (r: u32)
        ensures
            r == self@.fixed,
    {
        get_bits(self.0, 24, 30)
    }

    /// The two bits that tell what is loaded.
    fn opc_raw(&self) -> (r: u32)
        ensures
            r == self@.opc,
            r < 4,
    {
        proof {
            lemma_mask_values();
        }
        get_bits(self.0, 30, 32)
    }

    /// Sets the register that the instruction writes, or refuses a number that is none.
    pub fn try_set_reg(&mut self, val: u32) -> (r: Result<(), ()>)
        ensures
            r is Ok <==> val < 32,
            r is Ok ==> final(self).0 == with_bits(old(self).0, 0, 5, val),
            r is Err ==> *final(self) == *old(self),
    {
        proof {
            lemma_mask_values();
        }
        match try_set_bits(self.0, 0, 5, val) {
            Some(raw) => {
                self.0 = raw;
                Ok(())
            },
            None => Err(()),
        }
    }

    /// Sets the immediate, or refuses one that does not fit its field.
    pub fn try_set_imm(&mut self, val: i32) -> (r: Result<(), ()>)
        ensures
            r is Ok <==> -0x4_0000 <= val < 0x4_0000,
            r is Ok ==> final(self).0 == with_bits(
                old(self).0,
                5,
                24,
                unsigned(val as int, 19) as u32,
            ),
            r is Err ==> *final(self) == *old(self),
    {
        proof {
            lemma_mask_values();
        }
        match try_set_signed(self.0, 5, 24, val) {
            Some(raw) => {
                self.0 = raw;
                Ok(())
            },
            None => Err(()),
        }
    }

    /// The word is an `LDR` (literal) exactly when its fixed bits are `011000`.
    pub open spec fn is_ldr_imm(raw: u32) -> bool {
        bits(raw, 24, 30) == 0b011000
    }

    /// The address that the instruction, placed at `pc`, loads from.
    pub open spec fn target(self, pc: u64) -> int {
        wrap64(pc + 4 * self@.imm)
    }

    /// The word of the load of kind `opc` into `reg` from `imm` words ahead.
    pub open spec fn encoded(opc: LdrImmOpc, reg: u32, imm: int) -> u32 {
        with_bits(
            with_bits(
                with_bits(with_bits(0, 0, 5, reg), 5, 24, unsigned(imm, 19) as u32),
                24,
                30,
                0b011000,
            ),
            30,
            32,
            opc.code(),
        )
    }

    /// The word of the load of kind `opc` into `reg` of the word at `target`, for an
    /// instruction placed at `pc`, where the load can reach it.
    pub open spec fn encoded_at(pc: u64, opc: LdrImmOpc, reg: u32, target: u64) -> Option<u32> {
        if reg < 32 && distance(pc, target) % 4 == 0 && -0x4_0000 <= distance(pc, target) / 4
            < 0x4_0000 {
            Some(Self::encoded(opc, reg, distance(pc, target) / 4))
        } else {
            None
        }
    }

    /// Reads `raw` as the instruction, or refuses a word whose fixed bits are not its
    /// own.
    pub fn try_from_raw(raw: u32) -> (r: Result<Self, ()>)
        ensures
            r is Ok <==> Self::is_ldr_imm(raw),
            r matches Ok(ins) ==> ins.0 == raw,
    {
        let ins = Self::from_raw(raw);
        if ins.assert_opcode() {
            Ok(ins)
        } else {
            Err(())
        }
    }

    /// The load of `target` into `reg` for an instruction placed at `pc`.
    pub fn new_at(pc: u64, opc: LdrImmOpc, reg: u32, target: u64) -> (r: Result<Self, Error>)
        ensures
            r is Ok <==> reg < 32 && distance(pc, target) % 4 == 0 && -0x4_0000 <= distance(
                pc,
                target,
            ) / 4 < 0x4_0000,
            r matches Ok(ins) ==> ins@ == (LdrImmFields {
                reg,
                imm: distance(pc, target) / 4,
                fixed: 0b011000,
                opc: opc.code(),
            }) && ins.target(pc) == target && Self::encoded_at(pc, opc, reg, target) == Some(ins.0),
            r is Err ==> Self::encoded_at(pc, opc, reg, target) is None,
    {
        let diff = distance64(pc, target);
        match quarter(diff) {
            None => Err(Error),
            Some(words) => {
                if words < -0x4_0000 || words >= 0x4_0000 {
                    Err(Error)
                } else {
                    Self::new(opc, reg, words as i32)
                }
            },
        }
    }

    /// Whether the fixed bits of the word are those of the instruction.
    pub fn assert_opcode(&self) -> (r: bool)
        ensures
            r == Self::is_ldr_imm(self.0),
    {
        self.fixed() == 0b011000
    }

    /// The load of the word `imm` words from the instruction into `reg`.
    pub fn new(opc: LdrImmOpc, reg: u32, imm: i32) -> (r: Result<Self, Error>)
        ensures
            r is Ok <==> reg < 32 && -0x4_0000 <= imm < 0x4_0000,
            r matches Ok(ins) ==> ins@ == (LdrImmFields {
                reg,
                imm: imm as int,
                fixed: 0b011000,
                opc: opc.code(),
            }) && ins.0 == Self::encoded(opc, reg, imm as int),
    {
        proof {
            lemma_mask_values();
        }
        let w0: u32 = 0;
        let w1 = match try_set_bits(w0, 0, 5, reg) {
            Some(w) => w,
            None => {
                return Err(Error);
            },
        };
        let w2 = match try_set_signed(w1, 5, 24, imm) {
            Some(w) => w,
            None => {
                return Err(Error);
            },
        };
        let w3 = set_bits(w2, 24, 30, 0b011000);
        let w4 = set_bits(w3, 30, 32, opc.to_code());
        proof {
            lemma_with_bits(w0, 0, 5, reg);
            lemma_with_bits(w1, 5, 24, unsigned(imm as int, 19) as u32);
            lemma_with_bits(w2, 24, 30, 0b011000);
            lemma_with_bits(w3, 30, 32, opc.code());
        }
        Ok(LdrImm(w4))
    }

    /// The address that the instruction refers to where it is placed at the given
    /// address.
    pub fn target_pc(&self, pc: u64) -> (r: u64)
        ensures
            r == self.target(pc),
    {
        offset64(pc, self.imm() as i64 * 4)
    }

    /// A load that is encoded is read back as it was given.
    pub proof fn lemma_encoded(opc: LdrImmOpc, reg: u32, imm: int)
        requires
            reg < 32,
            -0x4_0000 <= imm < 0x4_0000,
        ensures
            Self::is_ldr_imm(Self::encoded(opc, reg, imm)),
            LdrImm(Self::encoded(opc, reg, imm))@ == (LdrImmFields {
                reg,
                imm,
                fixed: 0b011000,
                opc: opc.code(),
            }),
    {
        lemma_mask_values();
        lemma_signed_of_unsigned(imm, 19);
        let w1 = with_bits(0, 0, 5, reg);
        let w2 = with_bits(w1, 5, 24, unsigned(imm, 19) as u32);
        let w3 = with_bits(w2, 24, 30, 0b011000);
        lemma_with_bits(0, 0, 5, reg);
        lemma_with_bits(w1, 5, 24, unsigned(imm, 19) as u32);
        lemma_with_bits(w2, 24, 30, 0b011000);
        lemma_with_bits(w3, 30, 32, opc.code());
    }

    /// The load that is encoded for a target, where there is one, is a load into the
    /// register that was asked for, and reads at the target.
    pub proof fn lemma_encoded_at(pc: u64, opc: LdrImmOpc, reg: u32, target: u64)
        ensures
            Self::encoded_at(pc, opc, reg, target) matches Some(word) ==> Self::is_ldr_imm(word)
                && LdrImm(word)@.reg == reg && LdrImm(word)@.opc == opc.code() && LdrImm(
                word,
            ).target(pc) == target && 4 * LdrImm(word)@.imm == distance(pc, target),
    {
        if Self::encoded_at(pc, opc, reg, target) is Some {
            Self::lemma_encoded(opc, reg, distance(pc, target) / 4);
        }
    }

    /// What the instruction loads.
    pub fn opc(&self) -> (r: LdrImmOpc)
        ensures
            r == LdrImmOpc::of_code(self@.opc),
            r.code() == self@.opc,
    {
        let raw = self.opc_raw();
        if raw == 0 {
            LdrImmOpc::Load32
        } else if raw == 1 {
            LdrImmOpc::Load64
        } else if raw == 2 {
            LdrImmOpc::Load32Sx
        } else {
            LdrImmOpc::Prefetch
        }
    }
}

/// `ADR` / `ADRP`: form the address at a byte or page offset from the instruction.
#[derive(Debug, Clone, Copy)]
pub struct Adr(pub u32);

/// The fields of an `ADR` / `ADRP`.
pub struct AdrFields {
    pub reg: u32,
    pub imm_hi: u32,
    pub fixed: u32,
    pub imm_lo: u32,
    pub is_adrp: bool,
}

impl View for Adr {
    type V = AdrFields;

    open spec fn view(&self) -> AdrFields {
        AdrFields {
            reg: bits(self.0, 0, 5),
            imm_hi: bits(self.0, 5, 24),
            fixed: bits(self.0, 24, 29),
            imm_lo: bits(self.0, 29, 31),
            is_adrp: bits(self.0, 31, 32) == 1,
        }
    }
}

impl Adr {
    /// The instruction whose word is `val`.
    pub fn from_raw(val: u32) -> (r: Self)
        ensures
            r.0 == val,
    {
        Adr(val)
    }

    /// The word of the instruction.
    pub fn to_raw(self) -> (r: u32)
        ensures
            r == self.0,
    {
        self.0
    }

    /// The number of the register that the instruction writes.
    pub fn reg(&self) -> (r: u32)
        ensures
            r == self@.reg,
            r < 32,
    {
        proof {
            lemma_mask_values();
        }
        get_bits(self.0, 0, 5)
    }

    /// The upper nineteen bits of the immediate.
    fn imm_hi(&self) -> (r: u32)
        ensures
            r == self@.imm_hi,
            r <= 0x7_ffff,
    {
        proof {
            lemma_mask_values();
        }
        get_bits(self.0, 5, 24)
    }

    /// The fixed bits, which tell the instruction.
    fn fixed(&self) -> (r: u32)
        ensures
            r == self@.fixed,
    {
        get_bits(self.0, 24, 29)
    }

    /// The lower two bits of the immediate.
    fn imm_lo(&self) -> (r: u32)
        ensures
            r == self@.imm_lo,
            r <= 3,
    {
        proof {
            lemma_mask_values();
        }
        get_bits(self.0, 29, 31)
    }

    /// The word is an `ADR` or `ADRP` exactly when its fixed bits are `10000`.
    pub open spec fn is_adr(raw: u32) -> bool {
        bits(raw, 24, 29) == 0b10000
    }

    /// The signed 21-bit immediate: `imm_hi` above the two bits of `imm_lo`.
    pub open spec fn imm(self) -> int {
        signed((self@.imm_hi * 4 + self@.imm_lo) as u32, 21)
    }

    /// The address that the instruction, placed at `pc`, forms: `pc` plus the immediate
    /// for `ADR`, the page of `pc` plus that many pages for `ADRP`.
    pub open spec fn target(self, pc: u64) -> int {
        if self@.is_adrp {
            wrap64(pc - pc % 0x1000 + self.imm() * 0x1000)
        } else {
            wrap64(pc + self.imm())
        }
    }

    /// Reads `raw` as the instruction, or refuses a word whose fixed bits are not its
    /// own.
    pub fn try_from_raw(raw: u32) -> (r: Result<Self, ()>)
        ensures
            r is Ok <==> Self::is_adr(raw),
            r matches Ok(ins) ==> ins.0 == raw,
    {
        let ins = Self::from_raw(raw);
        if ins.assert_opcode() {
            Ok(ins)
        } else {
            Err(())
        }
    }

    /// Whether the fixed bits of the word are those of the instruction.
    pub fn assert_opcode(&self) -> (r: bool)
        ensures
            r == Self::is_adr(self.0),
    {
        self.fixed() == 0b10000
    }

    /// Whether the instruction is `ADRP`, which counts in pages.
    pub fn is_adrp(&self) -> (r: bool)
        ensures
            r == self@.is_adrp,
    {
        get_bits(self.0, 31, 32) == 1
    }

    /// The address that the instruction refers to where it is placed at the given
    /// address.
    pub fn target_pc(&self, pc: u64) -> (r: u64)
        ensures
            r == self.target(pc),
    {
        proof {
            lemma_mask_values();
        }
        let unsigned_imm: u32 = self.imm_hi() * 4 + self.imm_lo();
        let signed_imm: i64 = if unsigned_imm > 0xf_ffff {
            unsigned_imm as i64 - 0x20_0000
        } else {
            unsigned_imm as i64
        };
        if self.is_adrp() {
            offset64(pc - pc % 0x1000, signed_imm * 0x1000)
        } else {
            offset64(pc, signed_imm)
        }
    }
}

/// `B`: branch to a word offset relative to the instruction.
#[derive(Debug, Clone, Copy)]
pub struct Branch(pub u32);

/// The fields of a `B`.
pub struct BranchFields {
    pub imm: int,
    pub fixed: u32,
}

impl View for Branch {
    type V = BranchFields;

    open spec fn view(&self) -> BranchFields {
        BranchFields { imm: signed(bits(self.0, 0, 26), 26), fixed: bits(self.0, 26, 32) }
    }
}

impl Branch {
    /// The instruction whose word is `val`.
    pub fn from_raw(val: u32) -> (r: Self)
        ensures
            r.0 == val,
    {
        Branch(val)
    }

    /// The word of the instruction.
    pub fn to_raw(self) -> (r: u32)
        ensures
            r == self.0,
    {
        self.0
    }

    /// The immediate of the instruction.
    pub fn imm(&self) -> (r: i32)
        ensures
            r == self@.imm,
            -0x200_0000 <= r < 0x200_0000,
    {
        proof {
            lemma_mask_values();
        }
        get_signed(self.0, 0, 26)
    }

    /// The fixed bits, which tell the instruction.
    fn fixed(&self) -> (r: u32)
        ensures
            r == self@.fixed,
    {
        get_bits(self.0, 26, 32)
    }

    /// Sets the immediate, or refuses one that does not fit its field.
    pub fn try_set_imm(&mut self, val: i32) -> (r: Result<(), ()>)
        ensures
            r is Ok <==> -0x200_0000 <= val < 0x200_0000,
            r is Ok ==> final(self)@ == (BranchFields { imm: val as int, fixed: old(self)@.fixed }),
            r is Err ==> *final(self) == *old(self),
    {
        proof {
            lemma_mask_values();
            lemma_with_bits(self.0, 0, 26, unsigned(val as int, 26) as u32);
        }
        match try_set_signed(self.0, 0, 26, val) {
            Some(raw) => {
                self.0 = raw;
                Ok(())
            },
            None => Err(()),
        }
    }

    /// The word is a `B` exactly when its fixed bits are `000101`.
    pub open spec fn is_branch(raw: u32) -> bool {
        bits(raw, 26, 32) == 0b000101
    }

    /// The address that the instruction, placed at `pc`, branches to.
    pub open spec fn target(self, pc: u64) -> int {
        wrap64(pc + 4 * self@.imm)
    }

    /// Reads `raw` as the instruction, or refuses a word whose fixed bits are not its
    /// own.
    pub fn try_from_raw(raw: u32) -> (r: Result<Self, ()>)
        ensures
            r is Ok <==> Self::is_branch(raw),
            r matches Ok(ins) ==> ins.0 == raw,
    {
        let ins = Self::from_raw(raw);
        if ins.assert_opcode() {
            Ok(ins)
        } else {
            Err(())
        }
    }

    /// Whether the fixed bits of the word are those of the instruction.
    pub fn assert_opcode(&self) -> (r: bool)
        ensures
            r == Self::is_branch(self.0),
    {
        self.fixed() == 0b000101
    }

    /// The address that the instruction refers to where it is placed at the given
    /// address.
    pub fn target_pc(&self, pc: u64) -> (r: u64)
        ensures
            r == self.target(pc),
    {
        offset64(pc, self.imm() as i64 * 4)
    }

    /// Points the branch, placed at `pc`, at `target`, where the branch can reach it.
    pub fn try_set_target_pc(&mut self, pc: u64, target: u64) -> (r: Result<(), ()>)
        ensures
            r is Ok <==> distance(pc, target) % 4 == 0 && -0x200_0000 <= distance(pc, target) / 4
                < 0x200_0000,
            r is Ok ==> final(self)@ == (BranchFields {
                imm: distance(pc, target) / 4,
                fixed: old(self)@.fixed,
            }) && final(self).target(pc) == target,
            r is Err ==> *final(self) == *old(self),
    {
        let diff = distance64(pc, target);
        match quarter(diff) {
            None => Err(()),
            Some(words) => {
                if words < -0x200_0000 || words >= 0x200_0000 {
                    Err(())
                } else {
                    self.try_set_imm(words as i32)
                }
            },
        }
    }
}

/// `LDR` (immediate, unsigned offset): load from a base register plus a scaled offset.
#[derive(Debug, Clone, Copy)]
pub struct LdrOfs(pub u32);

/// The fields of an `LDR` (immediate, unsigned offset).
pub struct LdrOfsFields {
    pub reg_dest: u32,
    pub reg_base: u32,
    pub disp_raw: u32,
    pub opc: u32,
    pub fixed: u32,
    pub scale: u32,
}

impl View for LdrOfs {
    type V = LdrOfsFields;

    open spec fn view(&self) -> LdrOfsFields {
        LdrOfsFields {
            reg_dest: bits(self.0, 0, 5),
            reg_base: bits(self.0, 5, 10),
            disp_raw: bits(self.0, 10, 22),
            opc: bits(self.0, 22, 24),
            fixed: bits(self.0, 24, 30),
            scale: bits(self.0, 30, 32),
        }
    }
}

/// The number of bytes in one unit of a displacement scaled by `scale`.
pub open spec fn scale_unit(scale: u32) -> int {
    if scale == 0 {
        1
    } else if scale == 1 {
        2
    } else if scale == 2 {
        4
    } else {
        8
    }
}

/// The `opc` field of the register load that stands for a literal load of kind `opc`.
pub open spec fn ofs_opc(opc: LdrImmOpc) -> u32 {
    match opc {
        LdrImmOpc::Load32 => 0b01,
        LdrImmOpc::Load64 => 0b01,
        LdrImmOpc::Load32Sx => 0b10,
        LdrImmOpc::Prefetch => 0b10,
    }
}

/// The `scale` field of the register load that stands for a literal load of kind `opc`.
pub open spec fn ofs_scale(opc: LdrImmOpc) -> u32 {
    match opc {
        LdrImmOpc::Load32 => 0b10,
        LdrImmOpc::Load64 => 0b11,
        LdrImmOpc::Load32Sx => 0b10,
        LdrImmOpc::Prefetch => 0b11,
    }
}

impl LdrOfs {
    /// The instruction whose word is `val`.
    pub fn from_raw(val: u32) -> (r: Self)
        ensures
            r.0 == val,
    {
        LdrOfs(val)
    }

    /// The word of the instruction.
    pub fn to_raw(self) -> (r: u32)
        ensures
            r == self.0,
    {
        self.0
    }

    /// The number of the register that is loaded.
    pub fn reg_dest(&self) -> (r: u32)
        ensures
            r == self@.reg_dest,
            r < 32,
    {
        proof {
            lemma_mask_values();
        }
        get_bits(self.0, 0, 5)
    }

    /// The number of the base register.
    pub fn reg_base(&self) -> (r: u32)
        ensures
            r == self@.reg_base,
            r < 32,
    {
        proof {
            lemma_mask_values();
        }
        get_bits(self.0, 5, 10)
    }

    /// The displacement in units of the scale.
    fn disp_raw(&self) -> (r: u32)
        ensures
            r == self@.disp_raw,
            r <= 0xfff,
    {
        proof {
            lemma_mask_values();
        }
        get_bits(self.0, 10, 22)
    }

    /// The two bits that tell the scale.
    fn scale(&self) -> (r: u32)
        ensures
            r == self@.scale,
            r <= 3,
    {
        proof {
            lemma_mask_values();
        }
        get_bits(self.0, 30, 32)
    }

    /// The number of bytes in one unit of the scale.
    fn unit(&self) -> (r: u32)
        ensures
            r == scale_unit(self@.scale),
    {
        let scale = self.scale();
        if scale == 0 {
            1
        } else if scale == 1 {
            2
        } else if scale == 2 {
            4
        } else {
            8
        }
    }

    /// The word of the load of kind `opc` into `reg_dest` from `units` units of the
    /// scale above `reg_base`.
    pub open spec fn encoded(opc: LdrImmOpc, reg_dest: u32, reg_base: u32, units: u32) -> u32 {
        with_bits(
            with_bits(
                with_bits(
                    with_bits(
                        with_bits(with_bits(0, 24, 30, 0b111001), 0, 5, reg_dest),
                        5,
                        10,
                        reg_base,
                    ),
                    22,
                    24,
                    ofs_opc(opc),
                ),
                30,
                32,
                ofs_scale(opc),
            ),
            10,
            22,
            units,
        )
    }

    /// The load of `reg_dest` from `disp` bytes above `reg_base`, of the kind `opc`.
    pub fn new(opc: LdrImmOpc, reg_dest: u32, reg_base: u32, disp: u32) -> (r: Result<
        Self,
        Error,
    >)
        ensures
            r is Ok <==> reg_dest < 32 && reg_base < 32 && disp % (scale_unit(
                ofs_scale(opc),
            ) as u32) == 0 && disp / (scale_unit(ofs_scale(opc)) as u32) <= 0xfff,
            r matches Ok(ins) ==> ins@ == (LdrOfsFields {
                reg_dest,
                reg_base,
                disp_raw: disp / (scale_unit(ofs_scale(opc)) as u32),
                opc: ofs_opc(opc),
                fixed: 0b111001,
                scale: ofs_scale(opc),
            }) && ins.displacement() == disp && ins.0 == Self::encoded(
                opc,
                reg_dest,
                reg_base,
                disp / (scale_unit(ofs_scale(opc)) as u32),
            ),
    {
        proof {
            lemma_mask_values();
        }
        let w0: u32 = 0;
        let w1 = set_bits(w0, 24, 30, 0b111001);
        let w2 = match try_set_bits(w1, 0, 5, reg_dest) {
            Some(w) => w,
            None => {
                return Err(Error);
            },
        };
        let w3 = match try_set_bits(w2, 5, 10, reg_base) {
            Some(w) => w,
            None => {
                return Err(Error);
            },
        };
        let (opc_bits, scale_bits): (u32, u32) = match opc {
            LdrImmOpc::Load32 => (0b01, 0b10),
            LdrImmOpc::Load64 => (0b01, 0b11),
            LdrImmOpc::Load32Sx => (0b10, 0b10),
            LdrImmOpc::Prefetch => (0b10, 0b11),
        };
        let w4 = set_bits(w3, 22, 24, opc_bits);
        let w5 = set_bits(w4, 30, 32, scale_bits);
        proof {
            lemma_with_bits(w0, 24, 30, 0b111001);
            lemma_with_bits(w1, 0, 5, reg_dest);
            lemma_with_bits(w2, 5, 10, reg_base);
            lemma_with_bits(w3, 22, 24, opc_bits);
            lemma_with_bits(w4, 30, 32, scale_bits);
        }
        let mut ins = LdrOfs(w5);
        match ins.try_set_disp(disp) {
            Ok(()) => Ok(ins),
            Err(()) => Err(Error),
        }
    }

    /// The displacement in bytes: the raw field times the unit of the scale.
    pub open spec fn displacement(self) -> int {
        self@.disp_raw * scale_unit(self@.scale)
    }

    /// The displacement in bytes.
    pub fn disp(&self) -> (r: u32)
        ensures
            r == self.displacement(),
    {
        self.disp_raw() * self.unit()
    }

    /// Sets the displacement to `disp` bytes, which must be a multiple of the scale's
    /// unit and at most 4095 units.
    pub fn try_set_disp(&mut self, disp: u32) -> (r: Result<(), ()>)
        ensures
            r is Ok <==> disp % (scale_unit(old(self)@.scale) as u32) == 0 && disp / (scale_unit(
                old(self)@.scale,
            ) as u32) <= 0xfff,
            r is Ok ==> final(self)@ == (LdrOfsFields {
                disp_raw: disp / (scale_unit(old(self)@.scale) as u32),
                ..old(self)@
            }) && final(self).displacement() == disp && final(self).0 == with_bits(
                old(self).0,
                10,
                22,
                disp / (scale_unit(old(self)@.scale) as u32),
            ),
            r is Err ==> *final(self) == *old(self),
    {
        let unit = self.unit();
        if disp % unit != 0 {
            return Err(());
        }
        proof {
            lemma_mask_values();
            lemma_with_bits(self.0, 10, 22, disp / unit);
            if unit == 1 {
                assert((disp / 1) * 1 == disp);
            } else if unit == 2 {
                assert((disp / 2) * 2 == disp);
            } else if unit == 4 {
                assert((disp / 4) * 4 == disp);
            } else {
                assert((disp / 8) * 8 == disp);
            }
        }
        match try_set_bits(self.0, 10, 22, disp / unit) {
            Some(raw) => {
                self.0 = raw;
                Ok(())
            },
            None => Err(()),
        }
    }
}

} // verus!
