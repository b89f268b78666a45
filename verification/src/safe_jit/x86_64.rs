//! The x86-64 engine. An instruction that reads memory relative to the instruction
//! pointer is rewritten to read through a scratch register: a register that is dead
//! at the instruction takes the absolute address, and the instruction reads at it.
//!
//! The prefix is a straight run of instructions. A jump forward is part of it
//! together with the bytes that it passes over, which are never run and stay as they
//! are.

use vstd::prelude::*;
use vstd::slice::slice_subrange;
use std::borrow::Cow;
use crate::safe_jit::{JitError, RelocThunk};
use crate::safe_jit::iced::{
    decode, decode_jump, decoded, encode_mov_r64_imm64, encode_rebased, jump_of, mov_r64_imm64,
    rebased, registers_used, used_registers, Insn, Jump, RegUse, ACCESS_NONE, ACCESS_WRITE,
    FLOW_JUMP, FLOW_NEXT, RAX,
};
use crate::safe_jit::liveness::{
    apply, before, dead_until, first_written, lemma_dead_iff_written_before_read,
    lemma_first_written, Last, Liveness, Touch,
};
use crate::safe_jit::util::{advance64, behind, offset_from, wrap64};

verus! {

/// The number of general purpose registers.
pub const GPRS: usize = 16;

/// One instruction of the prefix, or a jump together with what it passes over.
#[derive(Clone, Copy, Debug, PartialEq, Eq, Structural)]
pub struct Item {
    /// Its offset in the template.
    pub pos: usize,
    /// Its length in bytes.
    pub len: usize,
    /// Whether it reads memory relative to the instruction pointer.
    pub reloc: bool,
    /// The address that it reads, where it does.
    pub disp: u64,
    /// Whether it is a jump with the bytes up to its target, which are never run.
    pub jump: bool,
}

/// What the scan of a template finds.
pub enum Scanned {
    /// The instructions of the prefix, and the offset of the instruction that reads
    /// the marker slot.
    Found { items: Seq<Item>, marker: int },
    /// The template cannot be relocated.
    Failed(JitError),
}

/// The rest of `code` from `pos`.
pub open spec fn rest(code: Seq<u8>, pos: int) -> Seq<u8> {
    code.subrange(pos, code.len() as int)
}

/// The address of the byte at `pos` of a template loaded at `ip`.
pub open spec fn address(ip: u64, pos: int) -> u64 {
    wrap64(ip + pos) as u64
}

/// The instruction at `pos` of `code`, loaded at `ip`.
pub open spec fn insn_at(code: Seq<u8>, ip: u64, pos: int) -> Insn {
    decoded(64, rest(code, pos), address(ip, pos))
}

/// What one instruction means to the scan.
#[derive(Clone, Copy, Debug, PartialEq, Eq, Structural)]
pub enum Verdict {
    /// The instruction reads the marker slot: the prefix ends.
    Marker,
    /// The instruction belongs to the prefix.
    Keep(Item),
    /// The template cannot be relocated.
    Fail(JitError),
}

/// The instruction at `pos` of `code`, loaded at `ip`, as a jump.
pub open spec fn jump_at(code: Seq<u8>, ip: u64, pos: int) -> Jump {
    jump_of(64, rest(code, pos), address(ip, pos))
}

/// What the instruction `insn`, which lies at `pos` in a template of `len` bytes
/// loaded at `ip`, means to the scan; `jump` is what it is as a jump. It must be
/// valid. A `JMP` forward within the template is followed: it belongs to the prefix
/// together with what it passes over. Any other branch is refused, and so is any
/// instruction that does not fall through to the next or is privileged. Where the
/// instruction reads at the address `marker` relative to the instruction pointer, the
/// prefix ends.
pub open spec fn judged(
    insn: Insn,
    jump: Jump,
    pos: int,
    len: int,
    ip: u64,
    marker: u64,
) -> Verdict {
    let to = wrap64(jump.target - ip);
    if insn.invalid || insn.len == 0 || pos + insn.len > len {
        Verdict::Fail(JitError::InvalidInstruction)
    } else if insn.flow == FLOW_JUMP {
        if jump.near && pos + insn.len <= to < len {
            Verdict::Keep(
                Item {
                    pos: pos as usize,
                    len: (to - pos) as usize,
                    reloc: false,
                    disp: 0,
                    jump: true,
                },
            )
        } else {
            Verdict::Fail(JitError::UnsupportedControlFlow)
        }
    } else if insn.flow != FLOW_NEXT || insn.privileged {
        Verdict::Fail(JitError::UnsupportedInstruction)
    } else if insn.ip_rel && insn.mem_disp == marker {
        Verdict::Marker
    } else {
        Verdict::Keep(
            Item {
                pos: pos as usize,
                len: insn.len,
                reloc: insn.ip_rel,
                disp: insn.mem_disp,
                jump: false,
            },
        )
    }
}

/// Judges the instruction `insn`, which lies at `pos` in a template of `len` bytes
/// loaded at `ip`.
pub fn judge(insn: Insn, jump: Jump, pos: usize, len: usize, ip: u64, marker: u64) -> (r: Verdict)
    requires
        pos <= len,
    ensures
        r == judged(insn, jump, pos as int, len as int, ip, marker),
{
    if insn.invalid || insn.len == 0 || insn.len > len - pos {
        Verdict::Fail(JitError::InvalidInstruction)
    } else if insn.flow == FLOW_JUMP {
        let to = offset_from(ip, jump.target);
        if jump.near && to >= pos as u64 + insn.len as u64 && to < len as u64 {
            Verdict::Keep(
                Item { pos, len: to as usize - pos, reloc: false, disp: 0, jump: true },
            )
        } else {
            Verdict::Fail(JitError::UnsupportedControlFlow)
        }
    } else if insn.flow != FLOW_NEXT || insn.privileged {
        Verdict::Fail(JitError::UnsupportedInstruction)
    } else if insn.ip_rel && insn.mem_disp == marker {
        Verdict::Marker
    } else {
        Verdict::Keep(
            Item { pos, len: insn.len, reloc: insn.ip_rel, disp: insn.mem_disp, jump: false },
        )
    }
}

/// The scan from `pos`, with `items` found before it: the prefix ends at the first
/// instruction that reads the marker slot, which lies `magic` bytes into the template.
pub open spec fn scan(code: Seq<u8>, ip: u64, magic: usize, pos: int, items: Seq<Item>) -> Scanned
    decreases code.len() - pos,
{
    if pos < 0 || pos >= code.len() {
        Scanned::Failed(JitError::NoThunkAsm)
    } else {
        match judged(
            insn_at(code, ip, pos),
            jump_at(code, ip, pos),
            pos,
            code.len() as int,
            ip,
            address(ip, magic as int),
        ) {
            Verdict::Marker => Scanned::Found { items, marker: pos },
            Verdict::Fail(e) => Scanned::Failed(e),
            Verdict::Keep(item) => if 0 < item.len && pos + item.len <= code.len() {
                scan(code, ip, magic, pos + item.len, items.push(item))
            } else {
                Scanned::Failed(JitError::InvalidInstruction)
            },
        }
    }
}

/// Every instruction has bytes, and they lie in the template below `end`.
pub open spec fn within(items: Seq<Item>, end: int) -> bool {
    forall|k: int|
        0 <= k < items.len() ==> (#[trigger] items[k]).len > 0 && items[k].pos + items[k].len
            <= end
}

/// Whether one of the instructions reads memory relative to the instruction pointer.
pub open spec fn any_reloc(items: Seq<Item>) -> bool {
    exists|k: int| 0 <= k < items.len() && (#[trigger] items[k]).reloc
}

/// Scans the prefix of `code`.
fn scan_prefix(
    code: &[u8],
    ip: u64,
    magic: usize,
) -> (r: Result<(Vec<Item>, usize, bool), JitError>)
    ensures
        match r {
            Ok((items, marker, any)) => scan(code@, ip, magic, 0, Seq::empty()) == (Scanned::Found {
                items: items@,
                marker: marker as int,
            }) && within(items@, marker as int) && marker < code@.len() && any == any_reloc(
                items@,
            ),
            Err(e) => scan(code@, ip, magic, 0, Seq::empty()) == Scanned::Failed(e),
        },
{
    let mut items: Vec<Item> = Vec::new();
    let mut pos: usize = 0;
    let mut any = false;
    let target = advance64(ip, magic);
    while pos < code.len()
        invariant
            pos <= code@.len(),
            target == address(ip, magic as int),
            scan(code@, ip, magic, 0, Seq::empty()) == scan(code@, ip, magic, pos as int, items@),
            within(items@, pos as int),
            any == any_reloc(items@),
        decreases code@.len() - pos,
    {
        let insn = decode(64, slice_subrange(code, pos, code.len()), advance64(ip, pos));
        let jump = if insn.flow == FLOW_JUMP {
            decode_jump(64, slice_subrange(code, pos, code.len()), advance64(ip, pos))
        } else {
            Jump { target: 0, near: false, target32: 0, next32: 0 }
        };
        let item = match judge(insn, jump, pos, code.len(), ip, target) {
            Verdict::Marker => {
                return Ok((items, pos, any));
            },
            Verdict::Fail(e) => {
                return Err(e);
            },
            Verdict::Keep(item) => item,
        };
        proof {
            let before = items@;
            let after = before.push(item);
            assert(within(after, pos + item.len)) by {
                assert forall|k: int| 0 <= k < after.len() implies (#[trigger] after[k]).len > 0
                    && after[k].pos + after[k].len <= pos + item.len by {
                    if k < before.len() {
                        assert(after[k] == before[k]);
                    }
                }
            }
            if any_reloc(before) {
                let k = choose|k: int| 0 <= k < before.len() && (#[trigger] before[k]).reloc;
                assert(after[k].reloc);
            }
            if any_reloc(after) {
                let k = choose|k: int| 0 <= k < after.len() && (#[trigger] after[k]).reloc;
                if k < before.len() {
                    assert(before[k].reloc);
                }
            }
            if item.reloc {
                assert(after[before.len() as int].reloc);
            }
        }
        items.push(item);
        any = any || item.reloc;
        pos += item.len;
    }
    Err(JitError::NoThunkAsm)
}

/// What one use of a register means to the liveness scan: a write of at least the low
/// four bytes of a general purpose register, which clears the rest, is a write in
/// full; a narrower write is no touch; any other access that uses a value is a read.
pub open spec fn touch_of(used: RegUse) -> Option<Touch> {
    if !used.gpr || used.full < RAX || used.full - RAX >= GPRS {
        None
    } else if used.access == ACCESS_WRITE {
        if used.size >= 4 {
            Some(Touch { reg: (used.full - RAX) as usize, write: true })
        } else {
            None
        }
    } else if used.access != ACCESS_NONE {
        Some(Touch { reg: (used.full - RAX) as usize, write: false })
    } else {
        None
    }
}

/// The touches that the first `upto` of `uses` mean.
pub open spec fn touches_of(uses: Seq<RegUse>, upto: int) -> Seq<Touch>
    decreases upto,
{
    if upto <= 0 {
        Seq::empty()
    } else {
        match touch_of(uses[upto - 1]) {
            Some(touch) => touches_of(uses, upto - 1).push(touch),
            None => touches_of(uses, upto - 1),
        }
    }
}

/// What the uses of registers by one instruction mean to the liveness scan.
pub fn touches(uses: &Vec<RegUse>) -> (r: Vec<Touch>)
    ensures
        r@ == touches_of(uses@, uses@.len() as int),
{
    let mut out: Vec<Touch> = Vec::new();
    let mut j: usize = 0;
    while j < uses.len()
        invariant
            j <= uses@.len(),
            out@ == touches_of(uses@, j as int),
        decreases uses@.len() - j,
    {
        let used = uses[j];
        if used.gpr && used.full >= RAX && used.full - RAX < GPRS as u32 {
            let reg = (used.full - RAX) as usize;
            if used.access == ACCESS_WRITE {
                if used.size >= 4 {
                    out.push(Touch { reg, write: true });
                }
            } else if used.access != ACCESS_NONE {
                out.push(Touch { reg, write: false });
            }
        }
        j += 1;
    }
    out
}

/// The touches of the instruction at `pos`.
pub open spec fn touches_at(code: Seq<u8>, ip: u64, pos: int) -> Seq<Touch> {
    let uses = registers_used(rest(code, pos), address(ip, pos));
    touches_of(uses, uses.len() as int)
}

/// The touches of each instruction of the prefix. A jump touches nothing, and what
/// it passes over is never run.
pub open spec fn prog(code: Seq<u8>, ip: u64, items: Seq<Item>) -> Seq<Seq<Touch>> {
    Seq::new(
        items.len(),
        |k: int|
            if items[k].jump {
                Seq::empty()
            } else {
                touches_at(code, ip, items[k].pos as int)
            },
    )
}

/// The states of the registers after an instruction that loads into the register
/// numbered `op0` and is followed by nothing that is known: where that is a general
/// purpose register, it is written in full.
pub open spec fn written_by(op0: u32) -> Seq<Last> {
    let untouched = Seq::new(GPRS as nat, |reg: int| Last::Untouched);
    if RAX <= op0 && op0 - RAX < GPRS {
        untouched.update(op0 - RAX, Last::Written)
    } else {
        untouched
    }
}

/// The states of the registers after the prefix: the instruction at `marker`, which
/// reads the marker slot, writes its first operand in full.
pub open spec fn end_state(code: Seq<u8>, ip: u64, marker: int) -> Seq<Last> {
    written_by(insn_at(code, ip, marker).op0)
}

/// The liveness scan as it stands after an instruction that loads into the register
/// numbered `op0`.
pub fn tracker_after(op0: u32) -> (r: Liveness)
    ensures
        r@ == written_by(op0),
        r@.len() == GPRS,
{
    let mut tracker = Liveness::new(GPRS);
    if op0 >= RAX && op0 - RAX < GPRS as u32 {
        tracker.mark_written((op0 - RAX) as usize);
    }
    tracker
}

/// The scratch register for instruction `k` of the prefix: the lowest register that
/// is dead there.
pub open spec fn scratch_at(
    code: Seq<u8>,
    ip: u64,
    items: Seq<Item>,
    marker: int,
    k: int,
) -> Option<int> {
    first_written(before(prog(code, ip, items), end_state(code, ip, marker), k), GPRS as int)
}

/// The scratch register of each instruction that needs one, and zero for the others.
pub open spec fn scratch_regs(code: Seq<u8>, ip: u64, items: Seq<Item>, marker: int) -> Seq<usize> {
    Seq::new(
        items.len(),
        |k: int|
            if items[k].reloc {
                match scratch_at(code, ip, items, marker, k) {
                    Some(reg) => reg as usize,
                    None => 0usize,
                }
            } else {
                0usize
            },
    )
}

/// Whether some instruction that needs a scratch register finds none.
pub open spec fn lacks_register(code: Seq<u8>, ip: u64, items: Seq<Item>, marker: int) -> bool {
    exists|k: int|
        0 <= k < items.len() && (#[trigger] items[k]).reloc && scratch_at(
            code,
            ip,
            items,
            marker,
            k,
        ) is None
}

/// Moves the liveness scan back over the instruction at `pos`.
fn step_back(tracker: &mut Liveness, code: &[u8], ip: u64, pos: usize)
    requires
        pos <= code@.len(),
    ensures
        final(tracker)@ == apply(old(tracker)@, touches_at(code@, ip, pos as int)),
{
    let uses = used_registers(slice_subrange(code, pos, code.len()), advance64(ip, pos));
    let found = touches(&uses);
    tracker.step(found.as_slice());
}

/// The liveness scan as it stands after the prefix.
fn end_tracker(code: &[u8], ip: u64, marker: usize) -> (r: Liveness)
    requires
        marker <= code@.len(),
    ensures
        r@ == end_state(code@, ip, marker as int),
        r@.len() == GPRS,
{
    let marker_insn = decode(64, slice_subrange(code, marker, code.len()), advance64(ip, marker));
    tracker_after(marker_insn.op0)
}

/// From instruction `from` on, each instruction that needs a scratch register has the
/// lowest register that is dead before it.
pub open spec fn picked(
    run: Seq<Seq<Touch>>,
    end: Seq<Last>,
    items: Seq<Item>,
    regs: Seq<usize>,
    from: int,
) -> bool {
    forall|j: int|
        from <= j < regs.len() && items[j].reloc ==> first_written(
            before(run, end, j),
            GPRS as int,
        ) == Some(#[trigger] regs[j] as int)
}

/// Picks the scratch registers by a backward scan of the prefix.
fn choose_registers(code: &[u8], ip: u64, items: &Vec<Item>, marker: usize) -> (r: Option<
    Vec<usize>,
>)
    requires
        within(items@, marker as int),
        marker < code@.len(),
    ensures
        r is None <==> lacks_register(code@, ip, items@, marker as int),
        r matches Some(regs) ==> regs@ == scratch_regs(code@, ip, items@, marker as int)
            && forall|k: int| 0 <= k < regs@.len() ==> #[trigger] regs@[k] < GPRS,
{
    let ghost run = prog(code@, ip, items@);
    let ghost end = end_state(code@, ip, marker as int);
    let mut tracker = end_tracker(code, ip, marker);
    let mut regs: Vec<usize> = Vec::new();
    while regs.len() < items.len()
        invariant
            regs@.len() <= items@.len(),
            forall|j: int| 0 <= j < regs@.len() ==> regs@[j] == 0,
        decreases items@.len() - regs@.len(),
    {
        regs.push(0);
    }
    let mut k: usize = items.len();
    while k > 0
        invariant
            k <= items@.len(),
            regs@.len() == items@.len(),
            within(items@, marker as int),
            marker < code@.len(),
            run == prog(code@, ip, items@),
            end == end_state(code@, ip, marker as int),
            run.len() == items@.len(),
            tracker@ == before(run, end, k as int),
            tracker@.len() == GPRS,
            forall|j: int| 0 <= j < regs@.len() ==> #[trigger] regs@[j] < GPRS,
            forall|j: int| 0 <= j < regs@.len() && !items@[j].reloc ==> #[trigger] regs@[j] == 0,
            picked(run, end, items@, regs@, k as int),
        decreases k,
    {
        k -= 1;
        let item = items[k];
        if item.jump {
            assert(tracker@ =~= apply(tracker@, Seq::<Touch>::empty()));
        } else {
            step_back(&mut tracker, code, ip, item.pos);
        }
        assert(tracker@ == before(run, end, k as int));
        assert(tracker@.len() == GPRS);
        let ghost earlier = regs@;
        if item.reloc {
            match tracker.first_dead() {
                Some(reg) => {
                    regs.set(k, reg);
                },
                None => {
                    assert(scratch_at(code@, ip, items@, marker as int, k as int) is None);
                    assert(items@[k as int].reloc);
                    return None;
                },
            }
        }
        proof {
            assert forall|j: int| k <= j < regs@.len() && items@[j].reloc implies first_written(
                before(run, end, j),
                GPRS as int,
            ) == Some(#[trigger] regs@[j] as int) by {
                if j > k {
                    assert(regs@[j] == earlier[j]);
                }
            }
        }
    }
    proof {
        assert forall|j: int|
            0 <= j < items@.len() && (#[trigger] items@[j]).reloc implies scratch_at(
            code@,
            ip,
            items@,
            marker as int,
            j,
        ) is Some by {
            assert(first_written(before(run, end, j), GPRS as int) == Some(regs@[j] as int));
        }
        assert(regs@ =~= scratch_regs(code@, ip, items@, marker as int)) by {
            assert forall|j: int| 0 <= j < regs@.len() implies regs@[j] == scratch_regs(
                code@,
                ip,
                items@,
                marker as int,
            )[j] by {
                if items@[j].reloc {
                    assert(first_written(before(run, end, j), GPRS as int) == Some(
                        regs@[j] as int,
                    ));
                }
            }
        }
    }
    Some(regs)
}

/// The bytes that stand for one instruction of the prefix: the instruction itself,
/// or the load of the address that it reads into `reg` and the instruction reading at
/// `reg`.
pub open spec fn piece(code: Seq<u8>, ip: u64, item: Item, reg: usize) -> Option<Seq<u8>> {
    if !item.reloc {
        Some(code.subrange(item.pos as int, item.pos + item.len))
    } else {
        match (
            mov_r64_imm64(reg as u32, item.disp),
            rebased(rest(code, item.pos as int), address(ip, item.pos as int), reg as u32),
        ) {
            (Some(load), Some(read)) => Some(load + read),
            _ => None,
        }
    }
}

/// The bytes that stand for the first `upto` instructions of the prefix.
pub open spec fn emitted(
    code: Seq<u8>,
    ip: u64,
    items: Seq<Item>,
    regs: Seq<usize>,
    upto: int,
) -> Option<Seq<u8>>
    decreases upto,
{
    if upto <= 0 {
        Some(Seq::empty())
    } else {
        match (
            emitted(code, ip, items, regs, upto - 1),
            piece(code, ip, items[upto - 1], regs[upto - 1]),
        ) {
            (Some(head), Some(last)) => Some(head + last),
            _ => None,
        }
    }
}

/// Writes the prefix anew.
fn emit(
    code: &[u8],
    ip: u64,
    items: &Vec<Item>,
    regs: &Vec<usize>,
    marker: usize,
) -> (r: Option<Vec<u8>>)
    requires
        within(items@, marker as int),
        marker < code@.len(),
        regs@.len() == items@.len(),
        forall|k: int| 0 <= k < regs@.len() ==> #[trigger] regs@[k] < GPRS,
    ensures
        r matches Some(out) ==> emitted(code@, ip, items@, regs@, items@.len() as int) == Some(
            out@,
        ),
        r is None ==> emitted(code@, ip, items@, regs@, items@.len() as int) is None,
{
    let mut out: Vec<u8> = Vec::new();
    let mut k: usize = 0;
    while k < items.len()
        invariant
            k <= items@.len(),
            within(items@, marker as int),
            marker < code@.len(),
            regs@.len() == items@.len(),
            forall|j: int| 0 <= j < regs@.len() ==> #[trigger] regs@[j] < GPRS,
            emitted(code@, ip, items@, regs@, k as int) == Some(out@),
        decreases items@.len() - k,
    {
        let item = items[k];
        if item.reloc {
            let reg = regs[k] as u32;
            let load = match encode_mov_r64_imm64(reg, item.disp) {
                Some(bytes) => bytes,
                None => {
                    proof {
                        lemma_emitted_fails_on(
                            code@,
                            ip,
                            items@,
                            regs@,
                            k as int + 1,
                            items@.len() as int,
                        );
                    }
                    return None;
                },
            };
            let read = match encode_rebased(
                slice_subrange(code, item.pos, code.len()),
                advance64(ip, item.pos),
                reg,
            ) {
                Some(bytes) => bytes,
                None => {
                    proof {
                        lemma_emitted_fails_on(
                            code@,
                            ip,
                            items@,
                            regs@,
                            k as int + 1,
                            items@.len() as int,
                        );
                    }
                    return None;
                },
            };
            out.extend_from_slice(load.as_slice());
            out.extend_from_slice(read.as_slice());
            assert(out@ =~= emitted(code@, ip, items@, regs@, k as int).unwrap() + (load@ + read@));
        } else {
            out.extend_from_slice(slice_subrange(code, item.pos, item.pos + item.len));
        }
        k += 1;
    }
    Some(out)
}

/// Once an instruction cannot be written, neither can any prefix that holds it.
pub proof fn lemma_emitted_fails_on(
    code: Seq<u8>,
    ip: u64,
    items: Seq<Item>,
    regs: Seq<usize>,
    upto: int,
    bound: int,
)
    requires
        emitted(code, ip, items, regs, upto) is None,
        upto <= bound,
    ensures
        emitted(code, ip, items, regs, bound) is None,
    decreases bound - upto,
{
    if upto < bound {
        lemma_emitted_fails_on(code, ip, items, regs, upto, bound - 1);
    }
}

/// The relocated template and the new offset of its marker slot.
///
/// Where no instruction of the prefix reads memory relative to the instruction
/// pointer, the template stays as it is. Else each such instruction needs a scratch
/// register, and the prefix is written anew; the rest of the template follows it
/// unchanged, and the marker slot moves by as much as the prefix has grown.
pub open spec fn relocated(
    code: Seq<u8>,
    ip: u64,
    magic: usize,
) -> Result<(Seq<u8>, int), JitError> {
    match scan(code, ip, magic, 0, Seq::empty()) {
        Scanned::Failed(e) => Err(e),
        Scanned::Found { items, marker } => {
            if !any_reloc(items) {
                Ok((code, magic as int))
            } else if lacks_register(code, ip, items, marker) {
                Err(JitError::NoAvailableRegister)
            } else {
                match emitted(
                    code,
                    ip,
                    items,
                    scratch_regs(code, ip, items, marker),
                    items.len() as int,
                ) {
                    None => Err(JitError::EncodingError),
                    Some(prefix) => {
                        let moved = magic + prefix.len() - marker;
                        if 0 <= moved <= usize::MAX {
                            Ok((prefix + rest(code, marker), moved))
                        } else {
                            Err(JitError::EncodingError)
                        }
                    },
                }
            }
        },
    }
}

/// Relocates the template `thunk_template`, loaded at `ip`, whose marker slot lies
/// `magic_offset` bytes into it.
pub fn try_reloc_thunk_template<'a>(thunk_template: &'a [u8], ip: u64, magic_offset: usize) -> (r:
    Result<RelocThunk<'a>, JitError>)
    ensures
        match r {
            Ok(reloc) => relocated(thunk_template@, ip, magic_offset) == Ok::<
                (Seq<u8>, int),
                JitError,
            >((reloc.thunk@, reloc.magic_offset as int)),
            Err(e) => relocated(thunk_template@, ip, magic_offset) == Err::<
                (Seq<u8>, int),
                JitError,
            >(e),
        },
        r matches Ok(reloc) ==> (reloc.thunk is Borrowed <==> !any_scanned_reloc(
            thunk_template@,
            ip,
            magic_offset,
        )),
{
    let (items, marker, any) = match scan_prefix(thunk_template, ip, magic_offset) {
        Ok(found) => found,
        Err(e) => {
            return Err(e);
        },
    };
    if !any {
        return Ok(RelocThunk { thunk: Cow::Borrowed(thunk_template), magic_offset });
    }
    let regs = match choose_registers(thunk_template, ip, &items, marker) {
        Some(regs) => regs,
        None => {
            return Err(JitError::NoAvailableRegister);
        },
    };
    let mut new_bytes = match emit(thunk_template, ip, &items, &regs, marker) {
        Some(bytes) => bytes,
        None => {
            return Err(JitError::EncodingError);
        },
    };
    let ghost prefix = new_bytes@;
    let grown = new_bytes.len();
    new_bytes.extend_from_slice(slice_subrange(thunk_template, marker, thunk_template.len()));
    assert(new_bytes@ == prefix + rest(thunk_template@, marker as int));
    let sum: u128 = magic_offset as u128 + grown as u128;
    if sum < marker as u128 || sum - marker as u128 > usize::MAX as u128 {
        return Err(JitError::EncodingError);
    }
    Ok(RelocThunk { thunk: Cow::Owned(new_bytes), magic_offset: (sum - marker as u128) as usize })
}

/// A scan drops no instruction that it was given: where one of them reads memory
/// relative to the instruction pointer, so does one of those that it finds.
pub proof fn lemma_scan_keeps_reloc(
    code: Seq<u8>,
    ip: u64,
    magic: usize,
    pos: int,
    items: Seq<Item>,
)
    requires
        scan(code, ip, magic, pos, items) is Found,
        any_reloc(items),
    ensures
        any_reloc(scan(code, ip, magic, pos, items)->items),
    decreases code.len() - pos,
{
    if pos < 0 || pos >= code.len() {
    } else {
        match judged(
            insn_at(code, ip, pos),
            jump_at(code, ip, pos),
            pos,
            code.len() as int,
            ip,
            address(ip, magic as int),
        ) {
            Verdict::Marker => {},
            Verdict::Fail(_) => {},
            Verdict::Keep(item) => {
                let k = choose|k: int| 0 <= k < items.len() && (#[trigger] items[k]).reloc;
                assert(items.push(item)[k].reloc);
                lemma_scan_keeps_reloc(code, ip, magic, pos + item.len, items.push(item));
            },
        }
    }
}

/// What the scan of a template makes of an instruction, the scan of the template with
/// `ahead` bytes before it makes of the same instruction, `ahead` bytes further on.
pub proof fn lemma_judged_behind(
    insn: Insn,
    jump: Jump,
    ip: u64,
    ahead: int,
    pos: int,
    len: int,
    marker: u64,
)
    requires
        0 <= ahead,
        0 <= pos < len,
        len + ahead <= usize::MAX,
    ensures
        judged(insn, jump, pos, len, address(ip, ahead), marker) is Marker ==> judged(
            insn,
            jump,
            pos + ahead,
            len + ahead,
            ip,
            marker,
        ) is Marker,
        judged(insn, jump, pos, len, address(ip, ahead), marker) matches Verdict::Keep(item)
            ==> judged(insn, jump, pos + ahead, len + ahead, ip, marker) == Verdict::Keep(
            Item { pos: (item.pos + ahead) as usize, ..item },
        ),
{
}

/// Where the scan of a template finds the end of its prefix, and in the prefix no
/// instruction that reads memory relative to the instruction pointer, so does the
/// scan of the template with bytes before it, from where the template begins.
pub proof fn lemma_scan_behind(
    whole: Seq<u8>,
    part: Seq<u8>,
    ip: u64,
    ahead: int,
    magic: usize,
    pos: int,
    items: Seq<Item>,
    before: Seq<Item>,
)
    requires
        behind(whole, ahead, part),
        whole.len() <= usize::MAX,
        magic + ahead <= usize::MAX,
        0 <= pos,
        !any_reloc(before),
        scan(part, address(ip, ahead), magic, pos, items) is Found,
        !any_reloc(scan(part, address(ip, ahead), magic, pos, items)->items),
    ensures
        scan(whole, ip, (magic + ahead) as usize, pos + ahead, before) is Found,
        !any_reloc(scan(whole, ip, (magic + ahead) as usize, pos + ahead, before)->items),
    decreases part.len() - pos,
{
    let there = address(ip, ahead);
    if pos < part.len() {
        assert(rest(whole, pos + ahead) =~= rest(part, pos));
        assert(address(ip, pos + ahead) == address(there, pos));
        assert(address(ip, magic + ahead) == address(there, magic as int));
        lemma_judged_behind(
            insn_at(part, there, pos),
            jump_at(part, there, pos),
            ip,
            ahead,
            pos,
            part.len() as int,
            address(there, magic as int),
        );
        match judged(
            insn_at(part, there, pos),
            jump_at(part, there, pos),
            pos,
            part.len() as int,
            there,
            address(there, magic as int),
        ) {
            Verdict::Marker => {},
            Verdict::Fail(_) => {},
            Verdict::Keep(item) => {
                let moved = Item { pos: (item.pos + ahead) as usize, ..item };
                if item.reloc {
                    assert(items.push(item)[items.len() as int].reloc);
                    lemma_scan_keeps_reloc(
                        part,
                        there,
                        magic,
                        pos + item.len,
                        items.push(item),
                    );
                }
                assert forall|k: int| 0 <= k < before.push(moved).len() implies !(
                #[trigger] before.push(moved)[k]).reloc by {
                    if k < before.len() {
                        assert(before.push(moved)[k] == before[k]);
                    }
                }
                lemma_scan_behind(
                    whole,
                    part,
                    ip,
                    ahead,
                    magic,
                    pos + item.len,
                    items.push(item),
                    before.push(moved),
                );
            },
        }
    }
}

/// A template whose prefix holds no instruction that reads memory relative to the
/// instruction pointer is relocated to itself behind a jump over the bytes between
/// the two, whatever those bytes are: the scan follows the jump and never reads
/// them. The jump is what the decoder tells of the first instruction: a near `JMP`
/// that leads to where the template begins.
pub proof fn lemma_relocated_behind_jump(
    whole: Seq<u8>,
    part: Seq<u8>,
    ip: u64,
    ahead: int,
    magic: usize,
)
    requires
        behind(whole, ahead, part),
        whole.len() <= usize::MAX,
        magic + ahead <= usize::MAX,
        !insn_at(whole, ip, 0).invalid,
        0 < insn_at(whole, ip, 0).len <= ahead,
        insn_at(whole, ip, 0).flow == FLOW_JUMP,
        jump_at(whole, ip, 0).near,
        wrap64(jump_at(whole, ip, 0).target - ip) == ahead,
        scan(part, address(ip, ahead), magic, 0, Seq::empty()) is Found,
        !any_scanned_reloc(part, address(ip, ahead), magic),
    ensures
        relocated(whole, ip, (magic + ahead) as usize) == Ok::<(Seq<u8>, int), JitError>(
            (whole, magic + ahead),
        ),
{
    let over = Item { pos: 0, len: ahead as usize, reloc: false, disp: 0, jump: true };
    let before = Seq::<Item>::empty().push(over);
    assert forall|k: int| 0 <= k < before.len() implies !(#[trigger] before[k]).reloc by {}
    lemma_scan_behind(whole, part, ip, ahead, magic, 0, Seq::empty(), before);
}

/// A template whose prefix holds no instruction that reads memory relative to the
/// instruction pointer is relocated to itself, with its marker slot where it was.
pub proof fn lemma_unchanged_without_reloc(code: Seq<u8>, ip: u64, magic: usize)
    requires
        scan(code, ip, magic, 0, Seq::empty()) is Found,
        !any_scanned_reloc(code, ip, magic),
    ensures
        relocated(code, ip, magic) == Ok::<(Seq<u8>, int), JitError>((code, magic as int)),
{
}

/// The scratch register of an instruction is dead there: it is written in full, by an
/// instruction from this one on or by the instruction that reads the marker slot,
/// before any instruction from this one on reads it. And an instruction finds no
/// scratch register only where no general purpose register is dead in that way.
pub proof fn lemma_scratch_is_dead(code: Seq<u8>, ip: u64, items: Seq<Item>, marker: int, j: int)
    requires
        0 <= j < items.len(),
    ensures
        scratch_at(code, ip, items, marker, j) matches Some(reg) ==> 0 <= reg < GPRS && exists|
            k: int,
        | dead_until(prog(code, ip, items), end_state(code, ip, marker), j, k, reg),
        scratch_at(code, ip, items, marker, j) is None ==> forall|reg: int, k: int|
            0 <= reg < GPRS ==> !dead_until(
                prog(code, ip, items),
                end_state(code, ip, marker),
                j,
                k,
                reg,
            ),
{
    let run = prog(code, ip, items);
    let end = end_state(code, ip, marker);
    lemma_first_written(before(run, end, j), GPRS as int);
    assert forall|reg: int| 0 <= reg < GPRS implies (before(run, end, j)[reg] == Last::Written
        <==> exists|k: int| dead_until(run, end, j, k, reg)) by {
        lemma_dead_iff_written_before_read(run, end, j, reg);
    }
    if scratch_at(code, ip, items, marker, j) is None {
        assert forall|reg: int, k: int| 0 <= reg < GPRS implies !dead_until(
            run,
            end,
            j,
            k,
            reg,
        ) by {
            if dead_until(run, end, j, k, reg) {
                assert(exists|at: int| dead_until(run, end, j, at, reg));
                assert(before(run, end, j)[reg] == Last::Written);
            }
        }
    }
}

/// Whether the scan of the template finds a prefix with an instruction that reads
/// memory relative to the instruction pointer.
pub open spec fn any_scanned_reloc(code: Seq<u8>, ip: u64, magic: usize) -> bool {
    match scan(code, ip, magic, 0, Seq::empty()) {
        Scanned::Found { items, marker } => any_reloc(items),
        Scanned::Failed(_) => false,
    }
}

} // verus!
