//! Decoding and encoding of x86 instructions, which the `iced_x86` crate does. The
//! engines see an instruction as the plain values that they read of it.

use vstd::prelude::*;
use crate::safe_jit::util::le_bytes;
use iced_x86::{
    Code, Decoder, DecoderOptions, Encoder, Instruction, InstructionInfoFactory,
    InstructionInfoOptions, Register,
};

verus! {

/// What the decoder tells of one instruction.
#[derive(Clone, Copy, Debug)]
pub struct Insn {
    /// The length in bytes.
    pub len: usize,
    /// The bytes are no instruction.
    pub invalid: bool,
    /// The number of the kind of control flow; `FLOW_NEXT` is falling through.
    pub flow: u32,
    /// A memory operand is relative to the instruction pointer.
    pub ip_rel: bool,
    /// The displacement of the memory operand: for an operand relative to the
    /// instruction pointer, the address that it reads.
    pub mem_disp: u64,
    /// The number of the register that is the first operand.
    pub op0: u32,
    /// The number of the instruction's code.
    pub code: u32,
    /// The instruction is privileged.
    pub privileged: bool,
}

/// What the decoder tells of an instruction as a branch.
#[derive(Clone, Copy, Debug)]
pub struct Jump {
    /// The address that the instruction branches to, where it is a near branch.
    pub target: u64,
    /// The instruction is a `JMP` to a relative target.
    pub near: bool,
    /// The address that the instruction branches to, in 32 bits.
    pub target32: u32,
    /// The address of the instruction after it, in 32 bits.
    pub next32: u32,
}

/// One register that an instruction uses.
#[derive(Clone, Copy, Debug)]
pub struct RegUse {
    /// The number of the full register that the used register is part of.
    pub full: u32,
    /// The register is a general purpose register.
    pub gpr: bool,
    /// The size of the used register in bytes.
    pub size: usize,
    /// The number of the kind of access.
    pub access: u32,
}

/// The kind of control flow of an instruction that falls through to the next.
pub const FLOW_NEXT: u32 = 0;

/// The kind of control flow of an unconditional branch.
pub const FLOW_JUMP: u32 = 1;

/// The kind of access that uses no value.
pub const ACCESS_NONE: u32 = 0;

/// The kind of access that writes and does not read.
pub const ACCESS_WRITE: u32 = 3;

/// The number of `RAX`; the other 64-bit general purpose registers follow it.
pub const RAX: u32 = 53;

/// The number of the register `EAX`.
pub const EAX: u32 = 37;

/// The number of the register `EDI`, the last of the eight that 32-bit code has.
pub const EDI: u32 = 44;

/// The number of the code of `POP r32`.
pub const CODE_POP_R32: u32 = 128;

/// The number of the code of `CALL rel32` in 32-bit mode.
pub const CODE_CALL_REL32_32: u32 = 692;

/// What the decoder, in `bitness`-bit mode, makes of the first instruction of `code`
/// placed at `ip`.
pub uninterp spec fn decoded(bitness: u32, code: Seq<u8>, ip: u64) -> Insn;

/// What the decoder, in `bitness`-bit mode, makes of the first instruction of `code`
/// placed at `ip` as a branch.
pub uninterp spec fn jump_of(bitness: u32, code: Seq<u8>, ip: u64) -> Jump;

/// The registers that the first instruction of 64-bit `code` placed at `ip` uses,
/// memory operands apart from their registers.
pub uninterp spec fn registers_used(code: Seq<u8>, ip: u64) -> Seq<RegUse>;

/// The encoding of `MOV r64, imm64` into the 64-bit general purpose register
/// numbered `reg` from `RAX`, where there is one: the prefix `REX.W`, with `REX.B`
/// for the upper eight registers, the opcode `B8` with the register's low three bits
/// in it, and the eight bytes of `imm`, least significant first.
pub open spec fn mov_r64_imm64(reg: u32, imm: u64) -> Option<Seq<u8>> {
    if reg < 16 {
        Some(seq![(0x48 + reg / 8) as u8, (0xB8 + reg % 8) as u8] + le_bytes(imm as int, 8))
    } else {
        None
    }
}

/// The encoding in 32-bit code of `MOV r32, imm32` into the register numbered `reg`,
/// where there is one, which is for `EAX` to `EDI`: the opcode `B8` with the
/// register's place after `EAX` in it, and the four bytes of `imm`, least significant
/// first.
pub open spec fn mov_r32_imm32(reg: u32, imm: u32) -> Option<Seq<u8>> {
    if EAX <= reg <= EDI {
        Some(seq![(0xB8 + (reg - EAX)) as u8] + le_bytes(imm as int, 4))
    } else {
        None
    }
}

/// The encoding of the first instruction of 64-bit `code` placed at `ip`, with its
/// memory operand turned into one that reads at the 64-bit general purpose register
/// numbered `reg` from `RAX`, without index or displacement, where there is one.
pub uninterp spec fn rebased(code: Seq<u8>, ip: u64, reg: u32) -> Option<Seq<u8>>;

/// `iced_x86::Decoder::decode` on `code` with the instruction pointer `ip`: the
/// result holds what the decoded `Instruction` gives for its length, validity, flow
/// control, memory operand, first register, code and privilege.
#[verifier::external_body]
pub(crate) fn decode(bitness: u32, code: &[u8], ip: u64) -> (r: Insn)
    requires
        bitness == 32 || bitness == 64,
    ensures
        r == decoded(bitness, code@, ip),
{
    let i = Decoder::with_ip(bitness, code, ip, DecoderOptions::NONE).decode();
    Insn {
        len: i.len(),
        invalid: i.is_invalid(),
        flow: i.flow_control() as u32,
        ip_rel: i.is_ip_rel_memory_operand(),
        mem_disp: i.memory_displacement64(),
        op0: i.op0_register() as u32,
        code: i.code() as u32,
        privileged: i.is_privileged(),
    }
}

/// `iced_x86::Instruction::near_branch_target`, `is_jmp_short_or_near`,
/// `near_branch32` and `next_ip32` of the instruction that
/// `iced_x86::Decoder::decode` makes of `code`.
#[verifier::external_body]
pub(crate) fn decode_jump(bitness: u32, code: &[u8], ip: u64) -> (r: Jump)
    requires
        bitness == 32 || bitness == 64,
    ensures
        r == jump_of(bitness, code@, ip),
{
    let i = Decoder::with_ip(bitness, code, ip, DecoderOptions::NONE).decode();
    Jump {
        target: i.near_branch_target(),
        near: i.is_jmp_short_or_near(),
        target32: i.near_branch32(),
        next32: i.next_ip32(),
    }
}

/// `iced_x86::InstructionInfoFactory::info_options`, without memory usage, on the
/// first instruction that `iced_x86::Decoder` decodes of 64-bit `code`: each
/// `UsedRegister` as its full register, whether it is a general purpose register, its
/// size and its access.
#[verifier::external_body]
pub(crate) fn used_registers(code: &[u8], ip: u64) -> (r: Vec<RegUse>)
    ensures
        r@ == registers_used(code@, ip),
{
    let i = Decoder::with_ip(64, code, ip, DecoderOptions::NONE).decode();
    let mut factory = InstructionInfoFactory::new();
    let info = factory.info_options(&i, InstructionInfoOptions::NO_MEMORY_USAGE);
    info.used_registers().iter().map(|u| RegUse {
        full: u.register().full_register() as u32,
        gpr: u.register().is_gpr(),
        size: u.register().size(),
        access: u.access() as u32,
    }).collect()
}

/// `iced_x86::Encoder::encode` on the `MOV r64, imm64` that
/// `iced_x86::Instruction::with2` makes for the register `reg` places after `RAX`.
/// The encoder's tables give this code the opcode `B8`, a 64-bit operand size, the
/// register in the opcode's low three bits with its fourth bit in the prefix, and an
/// immediate of eight bytes, which the encoder writes least significant first; in
/// 64-bit mode it takes each of the sixteen registers.
#[verifier::external_body]
pub(crate) fn encode_mov_r64_imm64(reg: u32, imm: u64) -> (r: Option<Vec<u8>>)
    requires
        reg < 16,
    ensures
        r matches Some(bytes) ==> mov_r64_imm64(reg, imm) == Some(bytes@),
        r is None ==> mov_r64_imm64(reg, imm) is None,
{
    let mov = Instruction::with2(Code::Mov_r64_imm64, Register::RAX + reg, imm).ok()?;
    let mut encoder = Encoder::new(64);
    encoder.encode(&mov, 0).ok()?;
    Some(encoder.take_buffer())
}

/// `iced_x86::Encoder::encode` on the `MOV r32, imm32` that
/// `iced_x86::Instruction::with2` makes for the register numbered `reg`. The
/// encoder's tables give this code the opcode `B8`, the register in the opcode's low
/// three bits and an immediate of four bytes, which the encoder writes least
/// significant first; in 32-bit mode it writes no prefix for the operand size and
/// refuses every register but `EAX` to `EDI`.
#[verifier::external_body]
pub(crate) fn encode_mov_r32_imm32(reg: u32, imm: u32) -> (r: Option<Vec<u8>>)
    requires
        reg < 256,
    ensures
        r matches Some(bytes) ==> mov_r32_imm32(reg, imm) == Some(bytes@),
        r is None ==> mov_r32_imm32(reg, imm) is None,
{
    let mov = Instruction::with2(Code::Mov_r32_imm32, Register::None + reg, imm).ok()?;
    let mut encoder = Encoder::new(32);
    encoder.encode(&mov, 0).ok()?;
    Some(encoder.take_buffer())
}

/// `iced_x86::Encoder::encode` on the first instruction that `iced_x86::Decoder`
/// decodes of 64-bit `code`, after its memory base was set to the register `reg`
/// places after `RAX`, its memory index to none and its displacement to zero.
#[verifier::external_body]
pub(crate) fn encode_rebased(code: &[u8], ip: u64, reg: u32) -> (r: Option<Vec<u8>>)
    requires
        reg < 16,
    ensures
        r matches Some(bytes) ==> rebased(code@, ip, reg) == Some(bytes@),
        r is None ==> rebased(code@, ip, reg) is None,
{
    let mut i = Decoder::with_ip(64, code, ip, DecoderOptions::NONE).decode();
    i.set_memory_base(Register::RAX + reg);
    i.set_memory_index(Register::None);
    i.set_memory_displacement64(0);
    let mut encoder = Encoder::new(64);
    encoder.encode(&i, 0).ok()?;
    Some(encoder.take_buffer())
}

} // verus!
