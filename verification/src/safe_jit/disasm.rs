//! Disassembly of ARM and AArch64 instructions, which the `capstone` crate does. The
//! engines see an instruction as the plain values that they read of it.

use vstd::prelude::*;
use capstone::Capstone;
use capstone::arch::{arm, arm64};
use capstone::arch::BuildsCapstone;
use capstone::arch::DetailsArchInsn;

verus! {

/// What the disassembler tells of one ARM instruction.
pub struct Decoded {
    /// The number of the instruction.
    pub id: u32,
    /// The length in bytes.
    pub len: usize,
    /// The numbers of the groups that the instruction belongs to.
    pub groups: Vec<u8>,
}

/// A disassembled instruction as a value.
pub struct DecodedView {
    pub id: u32,
    pub len: usize,
    pub groups: Seq<u8>,
}

impl View for Decoded {
    type V = DecodedView;

    open spec fn view(&self) -> DecodedView {
        DecodedView { id: self.id, len: self.len, groups: self.groups@ }
    }
}

/// The disassembler's number of `ADR`.
pub const ARM_INS_ADR: u32 = 4;

/// The disassembler's number of the branch `B`.
pub const ARM_INS_B: u32 = 11;

/// The disassembler's number of the program counter.
pub const ARM_REG_PC: u16 = 11;

/// The disassembler's number of the condition "always".
pub const ARM_CC_AL: u32 = 15;

/// The groups of the first instruction of AArch64 `code` placed at `addr`, where the
/// disassembler finds an instruction there.
pub uninterp spec fn arm64_groups(code: Seq<u8>, addr: u64) -> Option<Seq<u8>>;

/// What the disassembler makes of instruction number `nth`, counted from zero, of
/// those that it finds one after the other in ARM `code` placed at `addr`, read as
/// Thumb where `thumb` holds; none where it finds fewer. One disassembler reads them
/// all from the first on, so that it knows of an `IT` before an instruction.
pub uninterp spec fn arm_decoded(thumb: bool, code: Seq<u8>, addr: u64, nth: usize) -> Option<
    DecodedView,
>;

/// The numbers of the registers that instruction number `nth` of ARM `code` placed at
/// `addr` reads, and of those that it writes.
pub uninterp spec fn arm_registers(thumb: bool, code: Seq<u8>, addr: u64, nth: usize) -> Option<
    (Seq<u16>, Seq<u16>),
>;

/// The condition of instruction number `nth` of ARM `code` placed at `addr`, which in
/// Thumb is that of the `IT` before it where there is one, and its first operand
/// where that is an immediate.
pub uninterp spec fn arm_operands(thumb: bool, code: Seq<u8>, addr: u64, nth: usize) -> Option<
    (u32, Option<i32>),
>;

/// `capstone::Capstone::disasm_count` of one instruction, by a disassembler built for
/// AArch64 with detail, and `Capstone::insn_detail` on it: the number of each group
/// that `InsnDetail::groups` gives.
#[verifier::external_body]
pub(crate) fn disasm_arm64(code: &[u8], addr: u64) -> (r: Option<Vec<u8>>)
    ensures
        r matches Some(groups) ==> arm64_groups(code@, addr) == Some(groups@),
        r is None ==> arm64_groups(code@, addr) is None,
{
    let cs = Capstone::new().arm64().mode(arm64::ArchMode::Arm).detail(true).build().ok()?;
    let insns = cs.disasm_count(code, addr, 1).ok()?;
    let detail = cs.insn_detail(insns.first()?).ok()?;
    Some(detail.groups().iter().map(|g| g.0).collect())
}

/// `capstone::Capstone::disasm_count` of `count` instructions, which is `nth + 1`, by
/// one disassembler built for ARM or Thumb with detail, and `Capstone::insn_detail` on
/// the one numbered `nth`: the instruction's number and length, and the number of
/// each group that `InsnDetail::groups` gives. None where the disassembler finds fewer
/// instructions. The disassembler forgets the `IT` state when it begins and keeps it
/// from one instruction to the next.
#[verifier::external_body]
pub(crate) fn disasm_arm(
    thumb: bool,
    code: &[u8],
    addr: u64,
    count: usize,
    nth: usize,
) -> (r: Option<Decoded>)
    requires
        count == nth + 1,
    ensures
        r matches Some(insn) ==> arm_decoded(thumb, code@, addr, nth) == Some(insn@),
        r is None ==> arm_decoded(thumb, code@, addr, nth) is None,
{
    let mode = if thumb { arm::ArchMode::Thumb } else { arm::ArchMode::Arm };
    let cs = Capstone::new().arm().mode(mode).detail(true).build().ok()?;
    let insns = cs.disasm_count(code, addr, count).ok()?;
    let insn = insns.get(nth)?;
    let groups = cs.insn_detail(insn).ok()?.groups().iter().map(|g| g.0).collect();
    Some(Decoded { id: insn.id().0, len: insn.len(), groups })
}

/// `capstone::Capstone::disasm_count` of `count` instructions, which is `nth + 1`, by
/// one disassembler built for ARM or Thumb with detail, and `Capstone::insn_detail` on
/// the one numbered `nth`: the numbers that `InsnDetail::regs_read` and `regs_write`
/// give.
#[verifier::external_body]
pub(crate) fn disasm_arm_registers(
    thumb: bool,
    code: &[u8],
    addr: u64,
    count: usize,
    nth: usize,
) -> (r: Option<
    (Vec<u16>, Vec<u16>),
>)
    requires
        count == nth + 1,
    ensures
        r matches Some(regs) ==> arm_registers(thumb, code@, addr, nth) == Some(
            (regs.0@, regs.1@),
        ),
        r is None ==> arm_registers(thumb, code@, addr, nth) is None,
{
    let mode = if thumb { arm::ArchMode::Thumb } else { arm::ArchMode::Arm };
    let cs = Capstone::new().arm().mode(mode).detail(true).build().ok()?;
    let insns = cs.disasm_count(code, addr, count).ok()?;
    let detail = cs.insn_detail(insns.get(nth)?).ok()?;
    let read = detail.regs_read().iter().map(|r| r.0).collect();
    let write = detail.regs_write().iter().map(|r| r.0).collect();
    Some((read, write))
}

/// `capstone::Capstone::disasm_count` of `count` instructions, which is `nth + 1`, by
/// one disassembler built for ARM or Thumb with detail, and the `ArmInsnDetail` of the
/// one numbered `nth`:
/// the number of the condition that `cc` gives, and the immediate of the first of
/// `operands` where that is an `ArmOperandType::Imm`.
#[verifier::external_body]
pub(crate) fn disasm_arm_operands(
    thumb: bool,
    code: &[u8],
    addr: u64,
    count: usize,
    nth: usize,
) -> (r: Option<
    (u32, Option<i32>),
>)
    requires
        count == nth + 1,
    ensures
        r == arm_operands(thumb, code@, addr, nth),
{
    let mode = if thumb { arm::ArchMode::Thumb } else { arm::ArchMode::Arm };
    let cs = Capstone::new().arm().mode(mode).detail(true).build().ok()?;
    let insns = cs.disasm_count(code, addr, count).ok()?;
    let detail = cs.insn_detail(insns.get(nth)?).ok()?;
    let arch = detail.arch_detail();
    let first = match arch.arm()?.operands().next().map(|op| op.op_type) {
        Some(arm::ArmOperandType::Imm(imm)) => Some(imm),
        _ => None,
    };
    Some((arch.arm()?.cc() as u32, first))
}

} // verus!
