//! The ARM engine, for the A32 and the Thumb instruction set. An instruction that
//! reads the program counter is rewritten: `ADR` becomes a load of the address that
//! it formed from the pool, a literal load becomes a load of the literal's address
//! from the pool and a load through the register.

use vstd::prelude::*;
use vstd::slice::slice_subrange;
use crate::safe_jit::{JitError, RelocThunk};
use crate::safe_jit::arm_util::{
    any_unsupported, assemble, assembled, base_of, has_unsupported_insn_group,
    lemma_assembled_keeps, lemma_assembled_loads_reach, lemma_body_grows, lemma_ordered_push,
    lemma_pool_in_line, lemma_shift_grows, lemma_slot_bounds, lemma_text_len, literal_load,
    ordered, pool_entry, resumed, shift, slot_at, views, Fix, FixView, Isa, Step, Stepped,
};
use crate::safe_jit::disasm::{
    arm_decoded, arm_operands, arm_registers, disasm_arm, disasm_arm_operands,
    disasm_arm_registers, Decoded, DecodedView, ARM_CC_AL, ARM_INS_ADR, ARM_INS_B, ARM_REG_PC,
};
use crate::safe_jit::util::{
    address32, advance32, behind, le32, le32_bytes, le_bytes, wrap32,
};

verus! {

/// What comes in the place of an instruction that reads the program counter.
pub struct Rewrite {
    /// The instruction loads from the address; else it only forms it.
    pub load: bool,
    /// The register that takes the address.
    pub reg: u32,
    /// The address.
    pub target: u32,
    /// The load through the register, for a load.
    pub follow: Vec<u8>,
}

/// A rewrite as a value.
pub struct RewriteView {
    pub load: bool,
    pub reg: u32,
    pub target: u32,
    pub follow: Seq<u8>,
}

impl View for Rewrite {
    type V = RewriteView;

    open spec fn view(&self) -> RewriteView {
        RewriteView { load: self.load, reg: self.reg, target: self.target, follow: self.follow@ }
    }
}

/// What the scan of a template finds.
pub enum Scanned {
    /// The instructions to rewrite before the one that reads the marker slot.
    Found { fixes: Seq<FixView> },
    /// The template cannot be relocated.
    Failed(JitError),
}

/// The rest of `code` from `off`.
pub open spec fn rest(code: Seq<u8>, off: int) -> Seq<u8> {
    code.subrange(off, code.len() as int)
}

/// The address of the byte at `off` of a template loaded at `pc`.
pub open spec fn address(pc: u32, off: int) -> u32 {
    address32(pc, off) as u32
}

/// Whether `reg` is among `regs`.
pub open spec fn contains(regs: Seq<u16>, reg: u16) -> bool {
    exists|i: int| 0 <= i < regs.len() && #[trigger] regs[i] == reg
}

/// The address that an immediate operand stands for.
pub open spec fn as_address(imm: i32) -> int {
    if imm >= 0 {
        imm as int
    } else {
        imm + 0x1_0000_0000
    }
}

/// What comes in the place of the A32 instruction `bytes`, numbered `id` and placed
/// at `here`, where it is an `ADR` or a literal load.
pub open spec fn classify_arm(id: u32, bytes: Seq<u8>, here: u32) -> Option<RewriteView> {
    let word = le32(bytes, 0) as u32;
    if bytes.len() != 4 {
        None
    } else if crate::safe_jit::arm_util::encoding_arm::Adr::is_adr(word) {
        let adr = crate::safe_jit::arm_util::encoding_arm::Adr(word);
        Some(
            RewriteView {
                load: false,
                reg: adr@.rd,
                target: adr.target(here) as u32,
                follow: Seq::empty(),
            },
        )
    } else {
        match crate::safe_jit::arm_util::encoding_arm::LoadImm::form(id, word) {
            Some(load) => if load.base() == crate::safe_jit::arm_util::encoding_arm::PC {
                Some(
                    RewriteView {
                        load: true,
                        reg: load.dest(),
                        target: wrap32(
                            crate::safe_jit::arm_util::encoding_arm::effective(here)
                                + load.offset(),
                        ) as u32,
                        follow: le_bytes(load.rt_load() as int, 4),
                    },
                )
            } else {
                None
            },
            None => None,
        }
    }
}

/// What comes in the place of the Thumb instruction `bytes`, numbered `id` and placed
/// at `here`, where it is an `ADR` or a literal load.
pub open spec fn classify_thumb(id: u32, bytes: Seq<u8>, here: u32) -> Option<RewriteView> {
    match crate::safe_jit::arm_util::encoding_thumb::Adr::form(bytes) {
        Some(adr) => Some(
            RewriteView {
                load: false,
                reg: adr.dest(),
                target: adr.target(here) as u32,
                follow: Seq::empty(),
            },
        ),
        None => match crate::safe_jit::arm_util::encoding_thumb::LoadImm::form(id, bytes) {
            Some(load) => if load.is_literal() {
                Some(
                    RewriteView {
                        load: true,
                        reg: load.dest(),
                        target: wrap32(
                            crate::safe_jit::arm_util::encoding_thumb::effective(here)
                                + load.offset(),
                        ) as u32,
                        follow: load.rt_load_bytes(),
                    },
                )
            } else {
                None
            },
            None => None,
        },
    }
}

/// What comes in the place of the instruction `bytes`.
pub open spec fn classify(thumb: bool, id: u32, bytes: Seq<u8>, here: u32) -> Option<RewriteView> {
    if thumb {
        classify_thumb(id, bytes, here)
    } else {
        classify_arm(id, bytes, here)
    }
}

/// What comes in the place of the A32 instruction `bytes`.
fn rewrite_arm(id: u32, bytes: &[u8], here: u32) -> (r: Option<Rewrite>)
    ensures
        r matches Some(rewrite) ==> classify_arm(id, bytes@, here) == Some(rewrite@),
        r is None ==> classify_arm(id, bytes@, here) is None,
{
    if let Some(adr) = crate::safe_jit::arm_util::encoding_arm::Adr::try_from_raw(bytes) {
        return Some(
            Rewrite {
                load: false,
                reg: adr.dest_reg(),
                target: adr.target_pc(here),
                follow: Vec::new(),
            },
        );
    }
    let load = match crate::safe_jit::arm_util::encoding_arm::LoadImm::try_from_raw(id, bytes) {
        Some(load) => load,
        None => {
            return None;
        },
    };
    let target = match load.target_pc(here) {
        Some(target) => target,
        None => {
            return None;
        },
    };
    let word = le32_bytes(load.rt_load_word());
    let mut follow: Vec<u8> = Vec::new();
    follow.extend_from_slice(word.as_slice());
    assert(follow@ =~= le_bytes(load.rt_load() as int, 4));
    Some(Rewrite { load: true, reg: load.rt(), target, follow })
}

/// What comes in the place of the Thumb instruction `bytes`.
fn rewrite_thumb(id: u32, bytes: &[u8], here: u32) -> (r: Option<Rewrite>)
    ensures
        r matches Some(rewrite) ==> classify_thumb(id, bytes@, here) == Some(rewrite@),
        r is None ==> classify_thumb(id, bytes@, here) is None,
{
    if let Some(adr) = crate::safe_jit::arm_util::encoding_thumb::Adr::try_from_raw(bytes) {
        return Some(
            Rewrite {
                load: false,
                reg: adr.dest_reg(),
                target: adr.target_pc(here),
                follow: Vec::new(),
            },
        );
    }
    let load = match crate::safe_jit::arm_util::encoding_thumb::LoadImm::try_from_raw(id, bytes) {
        Some(load) => load,
        None => {
            return None;
        },
    };
    let target = match load.target_pc(here) {
        Some(target) => target,
        None => {
            return None;
        },
    };
    Some(Rewrite { load: true, reg: load.rt(), target, follow: load.rt_load_vec() })
}

/// What comes in the place of an instruction is no shorter than the instruction:
/// the four bytes of the literal load, and what follows it.
proof fn lemma_rewrite_grows(thumb: bool, id: u32, bytes: Seq<u8>, here: u32)
    ensures
        classify(thumb, id, bytes, here) matches Some(rewrite) ==> bytes.len() <= 4
            + rewrite.follow.len(),
{
}

/// Whether `reg` is among `regs`.
fn has_reg(regs: &[u16], reg: u16) -> (r: bool)
    ensures
        r == contains(regs@, reg),
{
    let mut i: usize = 0;
    while i < regs.len()
        invariant
            i <= regs@.len(),
            forall|j: int| 0 <= j < i ==> #[trigger] regs@[j] != reg,
        decreases regs@.len() - i,
    {
        if regs[i] == reg {
            return true;
        }
        i += 1;
    }
    false
}

/// What the instruction `insn`, which lies at `off` in a template of `len` bytes
/// loaded at `pc`, means to the scan. Its bytes are `bytes`; `registers` are the
/// registers that it reads and those that it writes, `operands` are its condition and
/// its first operand where that is an immediate.
///
/// A branch is followed forward within the template where it is unconditional. An
/// instruction that writes the program counter, or belongs to a group that cannot be
/// moved, is refused. An instruction that does not read the program counter, and is
/// no `ADR`, stays. Any other must be an unconditional `ADR` or literal load; the
/// literal load of the marker slot, which lies `magic` bytes into the template, ends
/// the prefix.
pub open spec fn judged(
    thumb: bool,
    insn: DecodedView,
    registers: Option<(Seq<u16>, Seq<u16>)>,
    operands: Option<(u32, Option<i32>)>,
    bytes: Seq<u8>,
    pc: u32,
    off: int,
    len: int,
    magic: usize,
) -> Step {
    if insn.len == 0 || off + insn.len > len {
        Step::Stop(JitError::InvalidInstruction)
    } else if insn.id == ARM_INS_B {
        match operands {
            Some((cc, Some(imm))) => {
                let to = wrap32(as_address(imm) - pc);
                if cc == ARM_CC_AL && off + insn.len <= to < len {
                    Step::Next(to)
                } else {
                    Step::Stop(JitError::UnsupportedControlFlow)
                }
            },
            _ => Step::Stop(JitError::UnsupportedControlFlow),
        }
    } else {
        match registers {
            None => Step::Stop(JitError::UnsupportedInstruction),
            Some((read, write)) => if contains(write, ARM_REG_PC) || any_unsupported(
                insn.groups,
            ) {
                Step::Stop(JitError::UnsupportedInstruction)
            } else if !contains(read, ARM_REG_PC) && insn.id != ARM_INS_ADR {
                Step::Next(off + insn.len)
            } else {
                match operands {
                    Some((cc, _)) => if cc != ARM_CC_AL {
                        Step::Stop(JitError::UnsupportedInstruction)
                    } else {
                        match classify(thumb, insn.id, bytes, address(pc, off)) {
                            None => Step::Stop(JitError::UnsupportedInstruction),
                            Some(rewrite) => if rewrite.load && rewrite.target == address(
                                pc,
                                magic as int,
                            ) {
                                Step::Marker
                            } else {
                                Step::Rewritten(
                                    FixView {
                                        at: off as usize,
                                        len: insn.len,
                                        reg: rewrite.reg,
                                        target: rewrite.target as u64,
                                        follow: rewrite.follow,
                                    },
                                )
                            },
                        }
                    },
                    None => Step::Stop(JitError::UnsupportedInstruction),
                }
            },
        }
    }
}

/// What the instruction at `off` means to the scan: what the disassembler tells of
/// it, judged. The disassembler began at `start` and has read `nth` instructions
/// since, of which this is the next. Where the disassembler finds no instruction, the
/// bytes are none.
pub open spec fn step(
    thumb: bool,
    code: Seq<u8>,
    pc: u32,
    magic: usize,
    start: int,
    nth: usize,
    off: int,
) -> Step {
    let from = address(pc, start) as u64;
    match arm_decoded(thumb, rest(code, start), from, nth) {
        None => Step::Stop(JitError::InvalidInstruction),
        Some(insn) => judged(
            thumb,
            insn,
            arm_registers(thumb, rest(code, start), from, nth),
            arm_operands(thumb, rest(code, start), from, nth),
            code.subrange(off, off + insn.len),
            pc,
            off,
            code.len() as int,
            magic,
        ),
    }
}

/// Whether the instruction that the disassembler, begun at `start`, reads after `nth`
/// others is a branch.
pub open spec fn jumps(thumb: bool, code: Seq<u8>, pc: u32, start: int, nth: usize) -> bool {
    arm_decoded(thumb, rest(code, start), address(pc, start) as u64, nth) matches Some(insn)
        && insn.id == ARM_INS_B
}

/// The scan from `off`, with `fixes` found before it, by a disassembler that began at
/// `start` and has read `nth` instructions since. One disassembler reads the
/// instructions of a straight run, so that it tells the condition that an `IT` lays
/// on those after it. Where a branch is followed, a disassembler begins anew at its
/// target.
pub open spec fn walk(
    thumb: bool,
    code: Seq<u8>,
    pc: u32,
    magic: usize,
    start: int,
    nth: usize,
    off: int,
    fixes: Seq<FixView>,
) -> Scanned
    decreases code.len() - off,
{
    if off < 0 || off >= code.len() {
        Scanned::Failed(JitError::NoThunkAsm)
    } else {
        match step(thumb, code, pc, magic, start, nth, off) {
            Step::Marker => Scanned::Found { fixes },
            Step::Stop(e) => Scanned::Failed(e),
            Step::Next(to) => if off < to <= code.len() {
                if jumps(thumb, code, pc, start, nth) {
                    walk(thumb, code, pc, magic, to, 0, to, fixes)
                } else {
                    walk(thumb, code, pc, magic, start, (nth + 1) as usize, to, fixes)
                }
            } else {
                Scanned::Failed(JitError::InvalidInstruction)
            },
            Step::Rewritten(fix) => if fix.at == off && 0 < fix.len && off + fix.len
                <= code.len() {
                walk(
                    thumb,
                    code,
                    pc,
                    magic,
                    start,
                    (nth + 1) as usize,
                    off + fix.len,
                    fixes.push(fix),
                )
            } else {
                Scanned::Failed(JitError::InvalidInstruction)
            },
        }
    }
}

/// The scan from `off`, with `fixes` found before it, by a disassembler that begins
/// there.
pub open spec fn scan(
    thumb: bool,
    code: Seq<u8>,
    pc: u32,
    magic: usize,
    off: int,
    fixes: Seq<FixView>,
) -> Scanned {
    walk(thumb, code, pc, magic, off, 0, off, fixes)
}

/// Where a branch is followed, what lies in between plays no part: the scan from the
/// branch is the scan from where it leads.
pub proof fn lemma_scan_goes_on(
    thumb: bool,
    code: Seq<u8>,
    pc: u32,
    magic: usize,
    start: int,
    nth: usize,
    off: int,
    to: int,
    fixes: Seq<FixView>,
)
    requires
        0 <= off < to <= code.len(),
        step(thumb, code, pc, magic, start, nth, off) == Step::Next(to),
        jumps(thumb, code, pc, start, nth),
    ensures
        walk(thumb, code, pc, magic, start, nth, off, fixes) == scan(
            thumb,
            code,
            pc,
            magic,
            to,
            fixes,
        ),
{
}

/// Whether `fix` is what a scan makes of the instruction at its offset.
pub open spec fn made(thumb: bool, code: Seq<u8>, pc: u32, magic: usize, fix: FixView) -> bool {
    exists|start: int, nth: usize| #[trigger]
        step(thumb, code, pc, magic, start, nth, fix.at as int) == Step::Rewritten(fix)
}

/// The fixes that a scan finds lie in the template in order and without overlap, none
/// takes more room than what comes in its place, and each is what the scan makes of
/// the instruction at its offset.
pub proof fn lemma_scan_in_order(
    thumb: bool,
    code: Seq<u8>,
    pc: u32,
    magic: usize,
    start: int,
    nth: usize,
    off: int,
    fixes: Seq<FixView>,
    found: Seq<FixView>,
)
    requires
        code.len() <= usize::MAX,
        ordered(fixes, off),
        forall|k: int| 0 <= k < fixes.len() ==> made(thumb, code, pc, magic, #[trigger] fixes[k]),
        walk(thumb, code, pc, magic, start, nth, off, fixes) == (Scanned::Found { fixes: found }),
    ensures
        ordered(found, code.len() as int),
        forall|k: int| 0 <= k < found.len() ==> made(thumb, code, pc, magic, #[trigger] found[k]),
        fixes.len() <= found.len(),
    decreases code.len() - off,
{
    if off < 0 || off >= code.len() {
    } else {
        match step(thumb, code, pc, magic, start, nth, off) {
            Step::Marker => {},
            Step::Stop(_) => {},
            Step::Next(to) => {
                if jumps(thumb, code, pc, start, nth) {
                    lemma_scan_in_order(thumb, code, pc, magic, to, 0, to, fixes, found);
                } else {
                    lemma_scan_in_order(
                        thumb,
                        code,
                        pc,
                        magic,
                        start,
                        (nth + 1) as usize,
                        to,
                        fixes,
                        found,
                    );
                }
            },
            Step::Rewritten(fix) => {
                let insn = arm_decoded(
                    thumb,
                    rest(code, start),
                    address(pc, start) as u64,
                    nth,
                )->0;
                lemma_rewrite_grows(
                    thumb,
                    insn.id,
                    code.subrange(off, off + insn.len),
                    address(pc, off),
                );
                lemma_ordered_push(fixes, fix, off);
                let later = fixes.push(fix);
                assert forall|k: int| 0 <= k < later.len() implies made(
                    thumb,
                    code,
                    pc,
                    magic,
                    #[trigger] later[k],
                ) by {
                    if k < fixes.len() {
                        assert(later[k] == fixes[k]);
                    }
                }
                lemma_scan_in_order(
                    thumb,
                    code,
                    pc,
                    magic,
                    start,
                    (nth + 1) as usize,
                    off + fix.len,
                    later,
                    found,
                );
            },
        }
    }
}

/// The address of a byte of a template is its address in the template with bytes
/// before it.
pub proof fn lemma_address_behind(pc: u32, ahead: int, by: int)
    requires
        0 <= ahead,
        0 <= by,
    ensures
        address(pc, by + ahead) == address(address(pc, ahead), by),
{
    vstd::arithmetic::div_mod::lemma_add_mod_noop_right(by, pc + ahead, 0x1_0000_0000);
    assert(by + (pc + ahead) == pc + (by + ahead));
}

/// A branch that leads `to` bytes into a template leads `ahead` bytes further into
/// the template with `ahead` bytes before it.
pub proof fn lemma_branch_behind(pc: u32, ahead: int, target: int, to: int)
    requires
        0 <= ahead,
        0 <= to,
        to + ahead <= u32::MAX,
        0 <= target <= u32::MAX,
        wrap32(target - address(pc, ahead)) == to,
    ensures
        wrap32(target - pc) == to + ahead,
{
    let there = address(pc, ahead);
    assert(there == pc + ahead || there == pc + ahead - 0x1_0000_0000);
}

/// An instruction means to the scan of a template what it means to the scan of the
/// template with bytes before it: where it reads the marker slot of the one, it reads
/// that of the other, and where the one scan goes on, the other goes on at the same
/// instruction.
pub proof fn lemma_judged_behind(
    thumb: bool,
    insn: DecodedView,
    registers: Option<(Seq<u16>, Seq<u16>)>,
    operands: Option<(u32, Option<i32>)>,
    bytes: Seq<u8>,
    pc: u32,
    ahead: int,
    off: int,
    len: int,
    magic: usize,
)
    requires
        0 <= ahead,
        0 <= off < len,
        len + ahead <= u32::MAX,
        magic + ahead <= usize::MAX,
    ensures
        judged(thumb, insn, registers, operands, bytes, address(pc, ahead), off, len, magic)
            is Marker ==> judged(
            thumb,
            insn,
            registers,
            operands,
            bytes,
            pc,
            off + ahead,
            len + ahead,
            (magic + ahead) as usize,
        ) is Marker,
        judged(
            thumb,
            insn,
            registers,
            operands,
            bytes,
            address(pc, ahead),
            off,
            len,
            magic,
        ) matches Step::Next(to) ==> judged(
            thumb,
            insn,
            registers,
            operands,
            bytes,
            pc,
            off + ahead,
            len + ahead,
            (magic + ahead) as usize,
        ) == Step::Next(to + ahead),
{
    let there = address(pc, ahead);
    lemma_address_behind(pc, ahead, off);
    lemma_address_behind(pc, ahead, magic as int);
    if insn.len == 0 || off + insn.len > len {
    } else if insn.id == ARM_INS_B {
        match operands {
            Some((cc, Some(imm))) => {
                let to = wrap32(as_address(imm) - there);
                if cc == ARM_CC_AL && off + insn.len <= to < len {
                    lemma_branch_behind(pc, ahead, as_address(imm), to);
                }
            },
            _ => {},
        }
    }
}

/// What the scan makes of an instruction of a template, it makes of the instruction
/// in the template with bytes before it.
pub proof fn lemma_step_behind(
    thumb: bool,
    whole: Seq<u8>,
    part: Seq<u8>,
    pc: u32,
    ahead: int,
    magic: usize,
    start: int,
    nth: usize,
    off: int,
)
    requires
        behind(whole, ahead, part),
        whole.len() <= u32::MAX,
        magic + ahead <= usize::MAX,
        0 <= start <= off < part.len(),
    ensures
        jumps(thumb, part, address(pc, ahead), start, nth) == jumps(
            thumb,
            whole,
            pc,
            start + ahead,
            nth,
        ),
        step(thumb, part, address(pc, ahead), magic, start, nth, off) is Marker ==> step(
            thumb,
            whole,
            pc,
            (magic + ahead) as usize,
            start + ahead,
            nth,
            off + ahead,
        ) is Marker,
        step(thumb, part, address(pc, ahead), magic, start, nth, off) matches Step::Next(to)
            ==> step(
            thumb,
            whole,
            pc,
            (magic + ahead) as usize,
            start + ahead,
            nth,
            off + ahead,
        ) == Step::Next(to + ahead),
{
    let there = address(pc, ahead);
    let from = address(there, start) as u64;
    assert(rest(whole, start + ahead) =~= rest(part, start));
    lemma_address_behind(pc, ahead, start);
    match arm_decoded(thumb, rest(part, start), from, nth) {
        None => {},
        Some(insn) => {
            if 0 < insn.len && off + insn.len <= part.len() {
                assert(whole.subrange(off + ahead, off + ahead + insn.len) =~= part.subrange(
                    off,
                    off + insn.len,
                ));
            }
            lemma_judged_behind(
                thumb,
                insn,
                arm_registers(thumb, rest(part, start), from, nth),
                arm_operands(thumb, rest(part, start), from, nth),
                part.subrange(off, off + insn.len),
                pc,
                ahead,
                off,
                part.len() as int,
                magic,
            );
        },
    }
}

/// Where the scan of a template finds the end of its prefix and nothing to rewrite,
/// so does the scan of the template with bytes before it, from where the template
/// begins.
pub proof fn lemma_scan_behind(
    thumb: bool,
    whole: Seq<u8>,
    part: Seq<u8>,
    pc: u32,
    ahead: int,
    magic: usize,
    start: int,
    nth: usize,
    off: int,
)
    requires
        behind(whole, ahead, part),
        whole.len() <= u32::MAX,
        magic + ahead <= usize::MAX,
        0 <= start <= off,
        walk(thumb, part, address(pc, ahead), magic, start, nth, off, Seq::empty()) == (
        Scanned::Found { fixes: Seq::empty() }),
    ensures
        walk(
            thumb,
            whole,
            pc,
            (magic + ahead) as usize,
            start + ahead,
            nth,
            off + ahead,
            Seq::empty(),
        ) == (Scanned::Found { fixes: Seq::empty() }),
    decreases part.len() - off,
{
    let there = address(pc, ahead);
    if off < part.len() {
        lemma_step_behind(thumb, whole, part, pc, ahead, magic, start, nth, off);
        match step(thumb, part, there, magic, start, nth, off) {
            Step::Marker => {},
            Step::Stop(_) => {},
            Step::Next(to) => {
                if jumps(thumb, part, there, start, nth) {
                    lemma_scan_behind(thumb, whole, part, pc, ahead, magic, to, 0, to);
                } else {
                    lemma_scan_behind(
                        thumb,
                        whole,
                        part,
                        pc,
                        ahead,
                        magic,
                        start,
                        (nth + 1) as usize,
                        to,
                    );
                }
            },
            Step::Rewritten(fix) => {
                let one = Seq::<FixView>::empty().push(fix);
                let insn = arm_decoded(
                    thumb,
                    rest(part, start),
                    address(there, start) as u64,
                    nth,
                )->0;
                lemma_rewrite_grows(
                    thumb,
                    insn.id,
                    part.subrange(off, off + insn.len),
                    address(there, off),
                );
                lemma_ordered_push(Seq::empty(), fix, off);
                lemma_scan_in_order(
                    thumb,
                    part,
                    there,
                    magic,
                    start,
                    (nth + 1) as usize,
                    off + fix.len,
                    one,
                    Seq::empty(),
                );
            },
        }
    }
}

/// What a relocated template holds for the fixed instruction `k` of its prefix.
///
/// The marker slot has moved by as much as the fixes lengthen the template. In the
/// place of the instruction stands the literal load of a pool entry into its
/// register, and behind it, for a literal load, the load through that register. The
/// entry holds the address that the instruction read at or formed where the template
/// stood, and each fixed instruction has an entry of its own. The rest of the template
/// from the instruction that reads the marker slot follows unchanged. Where the
/// template holds its two slots and ends whole halfwords behind the marker slot, the
/// entry lies behind the two slots, in line with the marker slot.
pub proof fn lemma_relocated_fixes(
    thumb: bool,
    code: Seq<u8>,
    pc: u32,
    magic: usize,
    fixes: Seq<FixView>,
    k: int,
)
    requires
        code.len() <= usize::MAX,
        scan(thumb, code, pc, magic, 0, Seq::empty()) == (Scanned::Found { fixes }),
        relocated(thumb, code, pc, magic) is Ok,
        0 <= k < fixes.len(),
    ensures
        ({
            let isa = if thumb {
                Isa::Thumb
            } else {
                Isa::Arm
            };
            let thunk = relocated(thumb, code, pc, magic)->Ok_0.0;
            let moved = relocated(thumb, code, pc, magic)->Ok_0.1;
            let n = fixes.len() as int;
            let grown = shift(fixes, n);
            let slot = slot_at(code, fixes, k);
            let entry = pool_entry(isa, code, magic, fixes, k);
            &&& made(thumb, code, pc, magic, fixes[k])
            &&& 0 <= grown && moved == magic + grown
            &&& 0 <= slot && slot + 4 + fixes[k].follow.len() <= code.len() + grown <= entry
            &&& entry + 4 <= thunk.len()
            &&& literal_load(isa, base_of(isa, moved) as u64, slot, fixes[k].reg, entry) == Some(
                thunk.subrange(slot, slot + 4),
            )
            &&& thunk.subrange(slot + 4, slot + 4 + fixes[k].follow.len()) == fixes[k].follow
            &&& thunk.subrange(entry, entry + 4) == le_bytes(fixes[k].target as int, 4)
            &&& thunk.subrange(resumed(fixes, n) + grown, code.len() + grown) == code.subrange(
                resumed(fixes, n),
                code.len() as int,
            )
            &&& magic + 8 <= code.len() && (code.len() - magic) % 2 == 0 ==> moved + 8 <= entry
                && (entry - moved) % 4 == 0
        }),
{
    let isa = if thumb {
        Isa::Thumb
    } else {
        Isa::Arm
    };
    let n = fixes.len() as int;
    lemma_scan_in_order(thumb, code, pc, magic, 0, 0, 0, Seq::empty(), fixes);
    lemma_shift_grows(fixes, code.len() as int, 0, n);
    lemma_assembled_loads_reach(isa, code, magic, fixes, k);
    lemma_assembled_keeps(isa, code, magic, fixes, k);
    lemma_text_len(code, fixes, n);
    lemma_slot_bounds(code, fixes, k);
    lemma_body_grows(code, fixes, k + 1, n);
    if magic + 8 <= code.len() && (code.len() - magic) % 2 == 0 {
        lemma_pool_in_line(isa, code, magic, fixes, k);
    }
}

/// A template that is relocated to itself where it stands is relocated to itself
/// behind a branch over the bytes between the two, whatever those bytes are: the scan
/// follows the branch and never reads them. The branch is what the disassembler
/// tells of the first instruction: an unconditional `B` that leads to where the
/// template begins.
pub proof fn lemma_relocated_behind_branch(
    thumb: bool,
    whole: Seq<u8>,
    part: Seq<u8>,
    pc: u32,
    ahead: int,
    magic: usize,
    imm: i32,
)
    requires
        behind(whole, ahead, part),
        whole.len() <= u32::MAX,
        magic + ahead <= usize::MAX,
        arm_decoded(thumb, whole, pc as u64, 0) matches Some(insn) && insn.id == ARM_INS_B && 0
            < insn.len <= ahead,
        arm_operands(thumb, whole, pc as u64, 0) == Some((ARM_CC_AL, Some(imm))),
        wrap32(as_address(imm) - pc) == ahead,
        relocated(thumb, part, address(pc, ahead), magic) == Ok::<(Seq<u8>, int), JitError>(
            (part, magic as int),
        ),
    ensures
        relocated(thumb, whole, pc, (magic + ahead) as usize) == Ok::<(Seq<u8>, int), JitError>(
            (whole, magic + ahead),
        ),
{
    let there = address(pc, ahead);
    let isa = if thumb {
        Isa::Thumb
    } else {
        Isa::Arm
    };
    let fixes = scan(thumb, part, there, magic, 0, Seq::empty())->fixes;
    lemma_scan_in_order(thumb, part, there, magic, 0, 0, 0, Seq::empty(), fixes);
    if fixes.len() > 0 {
        let n = fixes.len() as int;
        lemma_assembled_loads_reach(isa, part, magic, fixes, 0);
        lemma_text_len(part, fixes, n);
        lemma_shift_grows(fixes, part.len() as int, 0, n);
    }
    assert(fixes =~= Seq::empty());
    lemma_scan_behind(thumb, whole, part, pc, ahead, magic, 0, 0, 0);
    assert(rest(whole, 0) =~= whole);
    assert(address(pc, 0) == pc);
    lemma_scan_goes_on(
        thumb,
        whole,
        pc,
        (magic + ahead) as usize,
        0,
        0,
        0,
        ahead,
        Seq::empty(),
    );
}

/// Judges the instruction `insn`, which lies at `off` in a template of `len` bytes
/// loaded at `pc`, by what the disassembler tells of it.
pub fn judge(
    thumb: bool,
    insn: &Decoded,
    registers: &Option<(Vec<u16>, Vec<u16>)>,
    operands: Option<(u32, Option<i32>)>,
    bytes: &[u8],
    pc: u32,
    off: usize,
    len: usize,
    magic: usize,
) -> (r: Stepped)
    requires
        off < len,
        off + insn.len <= len ==> bytes@.len() == insn.len,
    ensures
        r@ == judged(
            thumb,
            insn@,
            match *registers {
                Some(regs) => Some((regs.0@, regs.1@)),
                None => None,
            },
            operands,
            bytes@,
            pc,
            off as int,
            len as int,
            magic,
        ),
        r matches Stepped::Next(to) ==> off < to <= len,
        r matches Stepped::Rewritten(fix) ==> fix.at == off && 0 < fix.len && off + fix.len
            <= len && fix.len <= 4 + fix.follow@.len(),
{
    let here = advance32(pc, off);
    if insn.len == 0 || insn.len > len - off {
        return Stepped::Stop(JitError::InvalidInstruction);
    }
    if insn.id == ARM_INS_B {
        return match operands {
            Some((cc, Some(imm))) => {
                let target: i64 = if imm >= 0 {
                    imm as i64
                } else {
                    imm as i64 + 0x1_0000_0000
                };
                let apart: i64 = target - pc as i64;
                let to: i64 = if apart < 0 {
                    apart + 0x1_0000_0000
                } else {
                    apart
                };
                if cc == ARM_CC_AL && (to as u64) >= off as u64 + insn.len as u64 && (to as u64)
                    < len as u64 {
                    Stepped::Next(to as usize)
                } else {
                    Stepped::Stop(JitError::UnsupportedControlFlow)
                }
            },
            _ => Stepped::Stop(JitError::UnsupportedControlFlow),
        };
    }
    let (read, write) = match registers {
        Some(regs) => (&regs.0, &regs.1),
        None => {
            return Stepped::Stop(JitError::UnsupportedInstruction);
        },
    };
    if has_reg(write.as_slice(), ARM_REG_PC) || has_unsupported_insn_group(
        insn.groups.as_slice(),
    ) {
        return Stepped::Stop(JitError::UnsupportedInstruction);
    }
    if !has_reg(read.as_slice(), ARM_REG_PC) && insn.id != ARM_INS_ADR {
        return Stepped::Next(off + insn.len);
    }
    match operands {
        Some((cc, _)) => {
            if cc != ARM_CC_AL {
                return Stepped::Stop(JitError::UnsupportedInstruction);
            }
        },
        None => {
            return Stepped::Stop(JitError::UnsupportedInstruction);
        },
    }
    let rewrite = if thumb {
        rewrite_thumb(insn.id, bytes, here)
    } else {
        rewrite_arm(insn.id, bytes, here)
    };
    match rewrite {
        None => Stepped::Stop(JitError::UnsupportedInstruction),
        Some(rewrite) => {
            if rewrite.load && rewrite.target == advance32(pc, magic) {
                Stepped::Marker
            } else {
                proof {
                    lemma_rewrite_grows(thumb, insn.id, bytes@, here);
                }
                Stepped::Rewritten(
                    Fix {
                        at: off,
                        len: insn.len,
                        reg: rewrite.reg,
                        target: rewrite.target as u64,
                        follow: rewrite.follow,
                    },
                )
            }
        },
    }
}

/// Disassembles the instruction at `off`, the next after `nth` others from `start`,
/// and judges it. Tells also whether it is a branch.
fn step_at(
    thumb: bool,
    code: &[u8],
    pc: u32,
    magic: usize,
    start: usize,
    nth: usize,
    off: usize,
) -> (r: (Stepped, bool))
    requires
        start <= off < code@.len(),
        nth < usize::MAX,
    ensures
        r.0@ == step(thumb, code@, pc, magic, start as int, nth, off as int),
        r.1 == jumps(thumb, code@, pc, start as int, nth),
        r.0 matches Stepped::Next(to) ==> off < to <= code@.len(),
        r.0 matches Stepped::Rewritten(fix) ==> fix.at == off && 0 < fix.len && off + fix.len
            <= code@.len() && fix.len <= 4 + fix.follow@.len(),
{
    let from = advance32(pc, start) as u64;
    let tail = slice_subrange(code, start, code.len());
    let insn = match disasm_arm(thumb, tail, from, nth + 1, nth) {
        Some(insn) => insn,
        None => {
            return (Stepped::Stop(JitError::InvalidInstruction), false);
        },
    };
    let registers = disasm_arm_registers(thumb, tail, from, nth + 1, nth);
    let operands = disasm_arm_operands(thumb, tail, from, nth + 1, nth);
    let end = if insn.len <= code.len() - off {
        off + insn.len
    } else {
        code.len()
    };
    let bytes = slice_subrange(code, off, end);
    let jumped = insn.id == ARM_INS_B;
    (judge(thumb, &insn, &registers, operands, bytes, pc, off, code.len(), magic), jumped)
}

/// Scans the prefix of `code`.
fn scan_prefix(thumb: bool, code: &[u8], pc: u32, magic: usize) -> (r: Result<Vec<Fix>, JitError>)
    ensures
        match r {
            Ok(fixes) => scan(thumb, code@, pc, magic, 0, Seq::empty()) == (Scanned::Found {
                fixes: views(fixes@),
            }) && ordered(views(fixes@), code@.len() as int),
            Err(e) => scan(thumb, code@, pc, magic, 0, Seq::empty()) == Scanned::Failed(e),
        },
{
    let mut fixes: Vec<Fix> = Vec::new();
    let mut start: usize = 0;
    let mut nth: usize = 0;
    let mut off: usize = 0;
    assert(views(fixes@) =~= Seq::empty());
    while off < code.len()
        invariant
            start <= off <= code@.len(),
            nth <= off - start,
            scan(thumb, code@, pc, magic, 0, Seq::empty()) == walk(
                thumb,
                code@,
                pc,
                magic,
                start as int,
                nth,
                off as int,
                views(fixes@),
            ),
            ordered(views(fixes@), off as int),
        decreases code@.len() - off,
    {
        let ghost earlier = views(fixes@);
        let (stepped, jumped) = step_at(thumb, code, pc, magic, start, nth, off);
        match stepped {
            Stepped::Marker => {
                assert(ordered(views(fixes@), code@.len() as int));
                return Ok(fixes);
            },
            Stepped::Stop(e) => {
                return Err(e);
            },
            Stepped::Next(to) => {
                if jumped {
                    start = to;
                    nth = 0;
                } else {
                    nth += 1;
                }
                off = to;
            },
            Stepped::Rewritten(fix) => {
                let len = fix.len;
                let ghost view = fix@;
                fixes.push(fix);
                proof {
                    assert(views(fixes@) =~= earlier.push(view));
                    lemma_ordered_push(earlier, view, off as int);
                }
                nth += 1;
                off += len;
            },
        }
    }
    Err(JitError::NoThunkAsm)
}

/// The relocated template and the new offset of its marker slot.
pub open spec fn relocated(thumb: bool, code: Seq<u8>, pc: u32, magic: usize) -> Result<
    (Seq<u8>, int),
    JitError,
> {
    match scan(thumb, code, pc, magic, 0, Seq::empty()) {
        Scanned::Failed(e) => Err(e),
        Scanned::Found { fixes } => assembled(
            if thumb {
                Isa::Thumb
            } else {
                Isa::Arm
            },
            code,
            magic,
            fixes,
        ),
    }
}

/// Relocates the template `thunk_template`, loaded at `pc`, whose marker slot lies
/// `magic_offset` bytes into it, as Thumb code where `thumb` holds and as A32 code
/// where it does not.
pub fn try_reloc_thunk_template<'a>(
    thumb: bool,
    thunk_template: &'a [u8],
    pc: u32,
    magic_offset: usize,
) -> (r: Result<RelocThunk<'a>, JitError>)
    ensures
        match r {
            Ok(reloc) => relocated(thumb, thunk_template@, pc, magic_offset) == Ok::<
                (Seq<u8>, int),
                JitError,
            >((reloc.thunk@, reloc.magic_offset as int)),
            Err(e) => relocated(thumb, thunk_template@, pc, magic_offset) == Err::<
                (Seq<u8>, int),
                JitError,
            >(e),
        },
        r matches Ok(reloc) ==> (reloc.thunk is Borrowed <==> scan(
            thumb,
            thunk_template@,
            pc,
            magic_offset,
            0,
            Seq::empty(),
        ) == Scanned::Found { fixes: Seq::empty() }),
{
    let fixes = match scan_prefix(thumb, thunk_template, pc, magic_offset) {
        Ok(fixes) => fixes,
        Err(e) => {
            return Err(e);
        },
    };
    let isa = if thumb {
        Isa::Thumb
    } else {
        Isa::Arm
    };
    let r = assemble(isa, thunk_template, magic_offset, &fixes);
    proof {
        if fixes@.len() == 0 {
            assert(views(fixes@) =~= Seq::empty());
        }
    }
    r
}

/// A template whose prefix holds no instruction that reads the program counter is
/// relocated to itself, with its marker slot where it was.
pub proof fn lemma_unchanged_without_fix(thumb: bool, code: Seq<u8>, pc: u32, magic: usize)
    requires
        scan(thumb, code, pc, magic, 0, Seq::empty()) == (Scanned::Found { fixes: Seq::empty() }),
    ensures
        relocated(thumb, code, pc, magic) == Ok::<(Seq<u8>, int), JitError>((code, magic as int)),
{
}

} // verus!
