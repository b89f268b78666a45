//! The AArch64 engine. A literal load becomes a load of the literal's address from
//! the pool and a load through the register; `ADR` and `ADRP` become a load of the
//! address they formed from the pool.

use vstd::prelude::*;
use vstd::slice::slice_subrange;
use crate::safe_jit::{JitError, RelocThunk};
use crate::safe_jit::arm_util::{
    any_unsupported, assemble, assembled, base_of, has_unsupported_insn_group,
    lemma_assembled_keeps, lemma_assembled_loads_reach, lemma_body_grows, lemma_ordered_push,
    lemma_pool_in_line, lemma_slot_bounds, lemma_text_len, literal_load, ordered, pool_entry,
    resumed, shift, slot_at, views, Fix, FixView, Isa, Step, Stepped,
};
use crate::safe_jit::disasm::{arm64_groups, disasm_arm64};
use crate::safe_jit::util::{
    advance64, behind, bits, get_bits, le32, le32_bytes, le_bytes, offset_from, read_le32,
    wrap64,
};
use crate::safe_jit::aarch64::encoding::{Adr, Branch, LdrImm, LdrImmOpc, LdrOfs};

pub mod encoding;

verus! {

/// What the scan of a template finds.
pub enum Scanned {
    /// The instructions to rewrite before the one that reads the marker slot.
    Found { fixes: Seq<FixView> },
    /// The template cannot be relocated.
    Failed(JitError),
}

/// The rest of `code` from `off`.
pub open spec fn rest(code: Seq<u8>, off: int) -> Seq<u8> {
    code.subrange(off, code.len() as int)
}

/// The address of the byte at `off` of a template loaded at `pc`.
pub open spec fn address(pc: u64, off: int) -> u64 {
    wrap64(pc + off) as u64
}

/// The fix for the literal load `word` at `off`: the load of the literal's address,
/// and after it the same kind of load through the loaded register.
pub open spec fn load_fix(word: u32, pc: u64, off: int) -> FixView {
    let ldr = LdrImm(word);
    FixView {
        at: off as usize,
        len: 4,
        reg: ldr@.reg,
        target: ldr.target(address(pc, off)) as u64,
        follow: le_bytes(
            LdrOfs::encoded(LdrImmOpc::of_code(ldr@.opc), ldr@.reg, ldr@.reg, 0) as int,
            4,
        ),
    }
}

/// The fix for the `ADR` or `ADRP` `word` at `off`: the load of the address that it
/// forms.
pub open spec fn adr_fix(word: u32, pc: u64, off: int) -> FixView {
    let adr = Adr(word);
    FixView {
        at: off as usize,
        len: 4,
        reg: adr@.reg,
        target: adr.target(address(pc, off)) as u64,
        follow: Seq::empty(),
    }
}

/// Whether the word is a literal load into a SIMD and floating-point register: a
/// word of the class of literal loads whose register is no general purpose register.
pub open spec fn is_vector_literal(word: u32) -> bool {
    bits(word, 27, 30) == 0b011 && bits(word, 24, 26) == 0 && bits(word, 26, 27) == 1
}

/// Whether the literal load `word` is a prefetch: it loads no register, and the field
/// that else tells the register tells the kind of prefetch.
pub open spec fn is_prefetch(word: u32) -> bool {
    LdrImm(word)@.opc == 3
}

/// What the instruction `word`, which lies at `off` in a template of `len` bytes
/// loaded at `pc` and belongs to `groups`, means to the scan. A literal load into a
/// general purpose register ends the prefix where it reads the marker slot, which
/// lies `magic` bytes into the template, and is rewritten where it reads elsewhere.
/// `ADR` and `ADRP` are rewritten. A branch is followed forward within the template.
/// No other branch is taken, and no instruction of a group that cannot be moved. A
/// literal prefetch and a literal load into a SIMD and floating-point register read
/// relative to their address and have no rewrite: they are refused.
pub open spec fn judged(
    groups: Seq<u8>,
    word: u32,
    pc: u64,
    off: int,
    len: int,
    magic: usize,
) -> Step {
    if LdrImm::is_ldr_imm(word) {
        if is_prefetch(word) {
            Step::Stop(JitError::UnsupportedInstruction)
        } else if LdrImm(word).target(address(pc, off)) == address(pc, magic as int) {
            Step::Marker
        } else {
            Step::Rewritten(load_fix(word, pc, off))
        }
    } else if Adr::is_adr(word) {
        Step::Rewritten(adr_fix(word, pc, off))
    } else if Branch::is_branch(word) {
        let to = wrap64(Branch(word).target(address(pc, off)) - pc);
        if off + 4 <= to < len {
            Step::Next(to)
        } else {
            Step::Stop(JitError::UnsupportedControlFlow)
        }
    } else if is_vector_literal(word) || any_unsupported(groups) {
        Step::Stop(JitError::UnsupportedInstruction)
    } else {
        Step::Next(off + 4)
    }
}

/// Whether the engine reads the word itself: a literal load into a general purpose
/// register or a literal prefetch, `ADR`, `ADRP` or `B`. What such a word means does
/// not depend on its groups.
pub open spec fn known(word: u32) -> bool {
    LdrImm::is_ldr_imm(word) || Adr::is_adr(word) || Branch::is_branch(word)
}

/// What the instruction at `off` means to the scan. A word that the engine reads
/// itself is judged as it is. Any other is judged with the groups that the
/// disassembler tells of it; where the disassembler finds no instruction, the word
/// is none. Where no whole instruction is left, the prefix has no end.
pub open spec fn step(code: Seq<u8>, pc: u64, magic: usize, off: int) -> Step {
    let word = le32(code, off) as u32;
    if off + 4 > code.len() {
        Step::Stop(JitError::NoThunkAsm)
    } else if known(word) {
        judged(Seq::empty(), word, pc, off, code.len() as int, magic)
    } else {
        match arm64_groups(rest(code, off), address(pc, off)) {
            None => Step::Stop(JitError::InvalidInstruction),
            Some(groups) => judged(groups, word, pc, off, code.len() as int, magic),
        }
    }
}

/// The scan from `off`, with `fixes` found before it.
pub open spec fn scan(
    code: Seq<u8>,
    pc: u64,
    magic: usize,
    off: int,
    fixes: Seq<FixView>,
) -> Scanned
    decreases code.len() - off,
{
    if off < 0 || off >= code.len() {
        Scanned::Failed(JitError::NoThunkAsm)
    } else {
        match step(code, pc, magic, off) {
            Step::Marker => Scanned::Found { fixes },
            Step::Stop(e) => Scanned::Failed(e),
            Step::Next(to) => if off < to <= code.len() {
                scan(code, pc, magic, to, fixes)
            } else {
                Scanned::Failed(JitError::InvalidInstruction)
            },
            Step::Rewritten(fix) => if fix.at == off && 0 < fix.len && off + fix.len
                <= code.len() {
                scan(code, pc, magic, off + fix.len, fixes.push(fix))
            } else {
                Scanned::Failed(JitError::InvalidInstruction)
            },
        }
    }
}

/// Where the scan goes on elsewhere, what lies in between plays no part: the scan
/// from an instruction that is followed, or jumped from, is the scan from where it
/// leads.
pub proof fn lemma_scan_goes_on(
    code: Seq<u8>,
    pc: u64,
    magic: usize,
    off: int,
    to: int,
    fixes: Seq<FixView>,
)
    requires
        0 <= off < to <= code.len(),
        step(code, pc, magic, off) == Step::Next(to),
    ensures
        scan(code, pc, magic, off, fixes) == scan(code, pc, magic, to, fixes),
{
}

/// A branch is followed where it leads forward within the template, and is refused
/// where it does not.
pub proof fn lemma_branch_judged(
    groups: Seq<u8>,
    word: u32,
    pc: u64,
    off: int,
    len: int,
    magic: usize,
)
    requires
        Branch::is_branch(word),
    ensures
        judged(groups, word, pc, off, len, magic) == (if off + 4 <= wrap64(
            Branch(word).target(address(pc, off)) - pc,
        ) < len {
            Step::Next(wrap64(Branch(word).target(address(pc, off)) - pc))
        } else {
            Step::Stop(JitError::UnsupportedControlFlow)
        }),
{
    assert(bits(word, 26, 32) == 0b000101 ==> bits(word, 24, 30) != 0b011000 && bits(
        word,
        24,
        29,
    ) != 0b10000) by (bit_vector);
}

/// Judges the instruction `word`, which lies at `off` in a template of `len` bytes
/// loaded at `pc`, by the groups that the disassembler tells of it.
pub fn judge(groups: &[u8], word: u32, pc: u64, off: usize, len: usize, magic: usize) -> (r:
    Stepped)
    requires
        off + 4 <= len,
    ensures
        r@ == judged(groups@, word, pc, off as int, len as int, magic),
        r matches Stepped::Next(to) ==> off < to <= len,
        r matches Stepped::Rewritten(fix) ==> fix.at == off && fix.len == 4 && fix.len <= 4
            + fix.follow@.len(),
{
    let here = advance64(pc, off);
    if let Ok(ldr) = LdrImm::try_from_raw(word) {
        let opc = ldr.opc();
        if opc == LdrImmOpc::Prefetch {
            return Stepped::Stop(JitError::UnsupportedInstruction);
        }
        let target = ldr.target_pc(here);
        if target == advance64(pc, magic) {
            return Stepped::Marker;
        }
        let reg = ldr.reg();
        let through = match LdrOfs::new(opc, reg, reg, 0) {
            Ok(ins) => ins,
            Err(_) => {
                return Stepped::Stop(JitError::EncodingError);
            },
        };
        let bytes = le32_bytes(through.to_raw());
        let mut follow: Vec<u8> = Vec::new();
        follow.extend_from_slice(bytes.as_slice());
        proof {
            assert(0u32 / (crate::safe_jit::aarch64::encoding::scale_unit(
                crate::safe_jit::aarch64::encoding::ofs_scale(opc),
            ) as u32) == 0);
            assert(follow@ =~= load_fix(word, pc, off as int).follow);
        }
        Stepped::Rewritten(Fix { at: off, len: 4, reg, target, follow })
    } else if let Ok(adr) = Adr::try_from_raw(word) {
        Stepped::Rewritten(
            Fix {
                at: off,
                len: 4,
                reg: adr.reg(),
                target: adr.target_pc(here),
                follow: Vec::new(),
            },
        )
    } else if let Ok(branch) = Branch::try_from_raw(word) {
        let to = offset_from(pc, branch.target_pc(here));
        if to >= off as u64 + 4 && to < len as u64 {
            Stepped::Next(to as usize)
        } else {
            Stepped::Stop(JitError::UnsupportedControlFlow)
        }
    } else if (get_bits(word, 27, 30) == 0b011 && get_bits(word, 24, 26) == 0 && get_bits(
        word,
        26,
        27,
    ) == 1) || has_unsupported_insn_group(groups) {
        Stepped::Stop(JitError::UnsupportedInstruction)
    } else {
        Stepped::Next(off + 4)
    }
}

/// Whether the engine reads the word itself.
fn knows(word: u32) -> (r: bool)
    ensures
        r == known(word),
{
    if let Ok(_) = LdrImm::try_from_raw(word) {
        return true;
    }
    if let Ok(_) = Adr::try_from_raw(word) {
        return true;
    }
    if let Ok(_) = Branch::try_from_raw(word) {
        return true;
    }
    false
}

/// Judges the instruction at `off`, with what the disassembler tells of it where the
/// engine does not read it itself.
fn step_at(code: &[u8], pc: u64, magic: usize, off: usize) -> (r: Stepped)
    requires
        off < code@.len(),
    ensures
        r@ == step(code@, pc, magic, off as int),
        r matches Stepped::Next(to) ==> off < to <= code@.len(),
        r matches Stepped::Rewritten(fix) ==> fix.at == off && 0 < fix.len && off + fix.len
            <= code@.len() && fix.len <= 4 + fix.follow@.len(),
{
    if code.len() - off < 4 {
        return Stepped::Stop(JitError::NoThunkAsm);
    }
    let word = read_le32(code, off);
    if knows(word) {
        let none: Vec<u8> = Vec::new();
        return judge(none.as_slice(), word, pc, off, code.len(), magic);
    }
    let groups = match disasm_arm64(slice_subrange(code, off, code.len()), advance64(pc, off)) {
        Some(groups) => groups,
        None => {
            return Stepped::Stop(JitError::InvalidInstruction);
        },
    };
    judge(groups.as_slice(), word, pc, off, code.len(), magic)
}

/// Scans the prefix of `code`.
fn scan_prefix(code: &[u8], pc: u64, magic: usize) -> (r: Result<Vec<Fix>, JitError>)
    ensures
        match r {
            Ok(fixes) => scan(code@, pc, magic, 0, Seq::empty()) == (Scanned::Found {
                fixes: views(fixes@),
            }) && ordered(views(fixes@), code@.len() as int),
            Err(e) => scan(code@, pc, magic, 0, Seq::empty()) == Scanned::Failed(e),
        },
{
    let mut fixes: Vec<Fix> = Vec::new();
    let mut off: usize = 0;
    assert(views(fixes@) =~= Seq::empty());
    while off < code.len()
        invariant
            off <= code@.len(),
            scan(code@, pc, magic, 0, Seq::empty()) == scan(
                code@,
                pc,
                magic,
                off as int,
                views(fixes@),
            ),
            ordered(views(fixes@), off as int),
        decreases code@.len() - off,
    {
        let ghost earlier = views(fixes@);
        let stepped = step_at(code, pc, magic, off);
        match stepped {
            Stepped::Marker => {
                assert(ordered(views(fixes@), code@.len() as int));
                return Ok(fixes);
            },
            Stepped::Stop(e) => {
                return Err(e);
            },
            Stepped::Next(to) => {
                off = to;
            },
            Stepped::Rewritten(fix) => {
                let len = fix.len;
                let ghost view = fix@;
                fixes.push(fix);
                proof {
                    assert(views(fixes@) =~= earlier.push(view));
                    lemma_ordered_push(earlier, view, off as int);
                }
                off += len;
            },
        }
    }
    Err(JitError::NoThunkAsm)
}

/// The relocated template and the new offset of its marker slot.
pub open spec fn relocated(
    code: Seq<u8>,
    pc: u64,
    magic: usize,
) -> Result<(Seq<u8>, int), JitError> {
    match scan(code, pc, magic, 0, Seq::empty()) {
        Scanned::Failed(e) => Err(e),
        Scanned::Found { fixes } => assembled(Isa::AArch64, code, magic, fixes),
    }
}

/// Relocates the template `thunk_template`, loaded at `pc`, whose marker slot lies
/// `magic_offset` bytes into it.
pub fn try_reloc_thunk_template<'a>(thunk_template: &'a [u8], pc: u64, magic_offset: usize) -> (r:
    Result<RelocThunk<'a>, JitError>)
    ensures
        match r {
            Ok(reloc) => relocated(thunk_template@, pc, magic_offset) == Ok::<
                (Seq<u8>, int),
                JitError,
            >((reloc.thunk@, reloc.magic_offset as int)),
            Err(e) => relocated(thunk_template@, pc, magic_offset) == Err::<
                (Seq<u8>, int),
                JitError,
            >(e),
        },
        r matches Ok(reloc) ==> (reloc.thunk is Borrowed <==> scan(
            thunk_template@,
            pc,
            magic_offset,
            0,
            Seq::empty(),
        ) == Scanned::Found { fixes: Seq::empty() }),
{
    let fixes = match scan_prefix(thunk_template, pc, magic_offset) {
        Ok(fixes) => fixes,
        Err(e) => {
            return Err(e);
        },
    };
    let r = assemble(Isa::AArch64, thunk_template, magic_offset, &fixes);
    proof {
        if fixes@.len() == 0 {
            assert(views(fixes@) =~= Seq::empty());
        }
    }
    r
}

/// Whether `fix` is what the scan makes of the word at its offset: the fix of a
/// literal load or the fix of an `ADR` or `ADRP`.
pub open spec fn made(code: Seq<u8>, pc: u64, fix: FixView) -> bool {
    let word = le32(code, fix.at as int) as u32;
    fix == load_fix(word, pc, fix.at as int) || fix == adr_fix(word, pc, fix.at as int)
}

/// The number of literal loads among the first `upto` fixes: of those that a load
/// through the register follows.
pub open spec fn loads(fixes: Seq<FixView>, upto: int) -> int
    decreases upto,
{
    if upto <= 0 {
        0
    } else if fixes[upto - 1].follow.len() > 0 {
        loads(fixes, upto - 1) + 1
    } else {
        loads(fixes, upto - 1)
    }
}

/// The fixes that a scan finds lie in the template in order and without overlap, and
/// each is the fix of the literal load, `ADR` or `ADRP` at its offset.
pub proof fn lemma_scan_fixes(
    code: Seq<u8>,
    pc: u64,
    magic: usize,
    off: int,
    fixes: Seq<FixView>,
    found: Seq<FixView>,
)
    requires
        code.len() <= usize::MAX,
        ordered(fixes, off),
        forall|k: int| 0 <= k < fixes.len() ==> made(code, pc, #[trigger] fixes[k]),
        scan(code, pc, magic, off, fixes) == (Scanned::Found { fixes: found }),
    ensures
        ordered(found, code.len() as int),
        forall|k: int| 0 <= k < found.len() ==> made(code, pc, #[trigger] found[k]),
    decreases code.len() - off,
{
    if off < 0 || off >= code.len() {
    } else {
        match step(code, pc, magic, off) {
            Step::Marker => {},
            Step::Stop(_) => {},
            Step::Next(to) => {
                lemma_scan_fixes(code, pc, magic, to, fixes, found);
            },
            Step::Rewritten(fix) => {
                let later = fixes.push(fix);
                lemma_ordered_push(fixes, fix, off);
                assert forall|k: int| 0 <= k < later.len() implies made(
                    code,
                    pc,
                    #[trigger] later[k],
                ) by {
                    if k < fixes.len() {
                        assert(later[k] == fixes[k]);
                    }
                }
                lemma_scan_fixes(code, pc, magic, off + fix.len, later, found);
            },
        }
    }
}

/// Each literal load among the fixes lengthens the template by one instruction, and
/// an `ADR` or `ADRP` by nothing.
pub proof fn lemma_shift_counts_loads(code: Seq<u8>, pc: u64, fixes: Seq<FixView>, upto: int)
    requires
        forall|k: int| 0 <= k < fixes.len() ==> made(code, pc, #[trigger] fixes[k]),
        0 <= upto <= fixes.len(),
    ensures
        0 <= loads(fixes, upto),
        shift(fixes, upto) == 4 * loads(fixes, upto),
    decreases upto,
{
    if upto > 0 {
        lemma_shift_counts_loads(code, pc, fixes, upto - 1);
        assert(made(code, pc, fixes[upto - 1]));
    }
}

/// What a relocated template holds for the fixed instruction `k` of its prefix.
///
/// The marker slot has moved by one instruction for each literal load of the prefix.
/// In the place of the instruction stands the literal load of a pool entry into its
/// register, and behind it, for a literal load, the load through that register. The
/// entry holds the address that the instruction read at or formed where the template
/// stood, and each fixed instruction has an entry of its own. The rest of the template
/// from the instruction that reads the marker slot follows unchanged. Where the
/// template holds its two slots and ends whole words behind the marker slot, the
/// entry lies behind the two slots, in line with the marker slot.
pub proof fn lemma_relocated_loads(
    code: Seq<u8>,
    pc: u64,
    magic: usize,
    fixes: Seq<FixView>,
    k: int,
)
    requires
        code.len() <= usize::MAX,
        scan(code, pc, magic, 0, Seq::empty()) == (Scanned::Found { fixes }),
        relocated(code, pc, magic) is Ok,
        0 <= k < fixes.len(),
    ensures
        ({
            let thunk = relocated(code, pc, magic)->Ok_0.0;
            let moved = relocated(code, pc, magic)->Ok_0.1;
            let n = fixes.len() as int;
            let slot = slot_at(code, fixes, k);
            let entry = pool_entry(Isa::AArch64, code, magic, fixes, k);
            &&& made(code, pc, fixes[k])
            &&& moved == magic + 4 * loads(fixes, n)
            &&& 0 <= slot && slot + 4 + fixes[k].follow.len() <= code.len() + 4 * loads(fixes, n)
                <= entry
            &&& entry + 8 <= thunk.len()
            &&& literal_load(
                Isa::AArch64,
                base_of(Isa::AArch64, moved) as u64,
                slot,
                fixes[k].reg,
                entry,
            ) == Some(thunk.subrange(slot, slot + 4))
            &&& thunk.subrange(slot + 4, slot + 4 + fixes[k].follow.len()) == fixes[k].follow
            &&& thunk.subrange(entry, entry + 8) == le_bytes(fixes[k].target as int, 8)
            &&& thunk.subrange(
                resumed(fixes, n) + 4 * loads(fixes, n),
                code.len() + 4 * loads(fixes, n),
            ) == code.subrange(resumed(fixes, n), code.len() as int)
            &&& magic + 16 <= code.len() && (code.len() - magic) % 4 == 0 ==> moved + 16 <= entry
                && (entry - moved) % 8 == 0
        }),
{
    let n = fixes.len() as int;
    lemma_scan_fixes(code, pc, magic, 0, Seq::empty(), fixes);
    lemma_shift_counts_loads(code, pc, fixes, n);
    lemma_assembled_loads_reach(Isa::AArch64, code, magic, fixes, k);
    lemma_assembled_keeps(Isa::AArch64, code, magic, fixes, k);
    lemma_text_len(code, fixes, n);
    lemma_slot_bounds(code, fixes, k);
    lemma_body_grows(code, fixes, k + 1, n);
    if magic + 16 <= code.len() && (code.len() - magic) % 4 == 0 {
        lemma_pool_in_line(Isa::AArch64, code, magic, fixes, k);
    }
}

/// A scan drops no fix that it was given.
pub proof fn lemma_scan_extends(
    code: Seq<u8>,
    pc: u64,
    magic: usize,
    off: int,
    fixes: Seq<FixView>,
    found: Seq<FixView>,
)
    requires
        scan(code, pc, magic, off, fixes) == (Scanned::Found { fixes: found }),
    ensures
        fixes.len() <= found.len(),
    decreases code.len() - off,
{
    if off < 0 || off >= code.len() {
    } else {
        match step(code, pc, magic, off) {
            Step::Marker => {},
            Step::Stop(_) => {},
            Step::Next(to) => {
                lemma_scan_extends(code, pc, magic, to, fixes, found);
            },
            Step::Rewritten(fix) => {
                lemma_scan_extends(code, pc, magic, off + fix.len, fixes.push(fix), found);
            },
        }
    }
}

/// An instruction means to the scan of a template what it means to the scan of the
/// template with bytes before it: where it reads the marker slot of the one, it reads
/// that of the other, and where the one scan goes on, the other goes on at the same
/// instruction.
pub proof fn lemma_step_behind(
    whole: Seq<u8>,
    part: Seq<u8>,
    pc: u64,
    ahead: int,
    magic: usize,
    off: int,
)
    requires
        behind(whole, ahead, part),
        whole.len() <= usize::MAX,
        magic + ahead <= usize::MAX,
        0 <= off < part.len(),
    ensures
        step(part, address(pc, ahead), magic, off) is Marker ==> step(
            whole,
            pc,
            (magic + ahead) as usize,
            off + ahead,
        ) is Marker,
        step(part, address(pc, ahead), magic, off) matches Step::Next(to) ==> step(
            whole,
            pc,
            (magic + ahead) as usize,
            off + ahead,
        ) == Step::Next(to + ahead),
{
    let there = address(pc, ahead);
    assert(rest(whole, off + ahead) =~= rest(part, off));
    assert(address(pc, off + ahead) == address(there, off));
    assert(address(pc, magic + ahead) == address(there, magic as int));
    if off + 4 <= part.len() {
        assert(part[off] == whole[off + ahead]);
        assert(part[off + 1] == whole[off + ahead + 1]);
        assert(part[off + 2] == whole[off + ahead + 2]);
        assert(part[off + 3] == whole[off + ahead + 3]);
        assert(le32(whole, off + ahead) == le32(part, off));
    }
}

/// Where the scan of a template finds the end of its prefix and nothing to rewrite,
/// so does the scan of the template with bytes before it, from where the template
/// begins.
pub proof fn lemma_scan_behind(
    whole: Seq<u8>,
    part: Seq<u8>,
    pc: u64,
    ahead: int,
    magic: usize,
    off: int,
)
    requires
        behind(whole, ahead, part),
        whole.len() <= usize::MAX,
        magic + ahead <= usize::MAX,
        0 <= off,
        scan(part, address(pc, ahead), magic, off, Seq::empty()) == (Scanned::Found {
            fixes: Seq::empty(),
        }),
    ensures
        scan(whole, pc, (magic + ahead) as usize, off + ahead, Seq::empty()) == (Scanned::Found {
            fixes: Seq::empty(),
        }),
    decreases part.len() - off,
{
    let there = address(pc, ahead);
    if off < part.len() {
        lemma_step_behind(whole, part, pc, ahead, magic, off);
        match step(part, there, magic, off) {
            Step::Marker => {},
            Step::Stop(_) => {},
            Step::Next(to) => {
                lemma_scan_behind(whole, part, pc, ahead, magic, to);
            },
            Step::Rewritten(fix) => {
                lemma_scan_extends(
                    part,
                    there,
                    magic,
                    off + fix.len,
                    Seq::<FixView>::empty().push(fix),
                    Seq::empty(),
                );
            },
        }
    }
}

/// A template that is relocated to itself where it stands is relocated to itself
/// behind a branch over the bytes between the two, whatever those bytes are: the scan
/// follows the branch and never reads them.
pub proof fn lemma_relocated_behind_branch(
    whole: Seq<u8>,
    part: Seq<u8>,
    pc: u64,
    ahead: int,
    magic: usize,
)
    requires
        behind(whole, ahead, part),
        4 <= ahead,
        whole.len() <= usize::MAX,
        magic + ahead <= usize::MAX,
        Branch::is_branch(le32(whole, 0) as u32),
        4 * Branch(le32(whole, 0) as u32)@.imm == ahead,
        relocated(part, address(pc, ahead), magic) == Ok::<(Seq<u8>, int), JitError>(
            (part, magic as int),
        ),
    ensures
        relocated(whole, pc, (magic + ahead) as usize) == Ok::<(Seq<u8>, int), JitError>(
            (whole, magic + ahead),
        ),
{
    let there = address(pc, ahead);
    let word = le32(whole, 0) as u32;
    let fixes = scan(part, there, magic, 0, Seq::empty())->fixes;
    if fixes.len() > 0 {
        lemma_scan_fixes(part, there, magic, 0, Seq::empty(), fixes);
        lemma_shift_counts_loads(part, there, fixes, fixes.len() as int);
        lemma_relocated_loads(part, there, magic, fixes, 0);
    }
    assert(fixes =~= Seq::empty());
    lemma_scan_behind(whole, part, pc, ahead, magic, 0);
    assert(rest(whole, 0) =~= whole);
    assert(address(pc, 0) == pc);
    lemma_branch_judged(
        Seq::empty(),
        word,
        pc,
        0,
        whole.len() as int,
        (magic + ahead) as usize,
    );
    assert(wrap64(Branch(word).target(pc) - pc) == ahead);
    lemma_scan_goes_on(whole, pc, (magic + ahead) as usize, 0, ahead, Seq::empty());
}

/// A template whose prefix holds no literal load, `ADR` or `ADRP` is relocated to
/// itself, with its marker slot where it was.
pub proof fn lemma_unchanged_without_fix(code: Seq<u8>, pc: u64, magic: usize)
    requires
        scan(code, pc, magic, 0, Seq::empty()) == (Scanned::Found { fixes: Seq::empty() }),
    ensures
        relocated(code, pc, magic) == Ok::<(Seq<u8>, int), JitError>((code, magic as int)),
{
}

} // verus!
