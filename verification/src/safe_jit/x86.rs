//! The 32-bit x86 engine. Code for it does not depend on where it stands, but for one
//! idiom: a `CALL` to the next instruction followed by a `POP` reads the current
//! address into a register. The pair is replaced by a load of the address that the
//! `CALL` pushed where the template stands.

use vstd::prelude::*;
use vstd::slice::slice_subrange;
use std::borrow::Cow;
use crate::safe_jit::{JitError, RelocThunk};
use crate::safe_jit::iced::{
    decode, decode_jump, decoded, encode_mov_r32_imm32, jump_of, mov_r32_imm32, Insn, Jump,
    CODE_CALL_REL32_32, CODE_POP_R32, FLOW_JUMP, FLOW_NEXT,
};
use crate::safe_jit::util::{advance64, behind, offset_from, wrap64};

verus! {

/// How far before the marker the code that reads the marker slot begins.
pub const THUNK_CODE_BEFORE_MAGIC: usize = 16;

/// The highest number that a register can have.
pub const LAST_REGISTER: u32 = 255;

/// One `CALL` / `POP` pair.
#[derive(Clone, Copy, Debug, PartialEq, Eq, Structural)]
pub struct CallPop {
    /// The offset of the `CALL` in the template.
    pub offset: usize,
    /// The length of the pair in bytes.
    pub len: usize,
    /// The address that the `CALL` pushes: that of the `POP`.
    pub target_ip: u32,
    /// The number of the register that the `POP` fills.
    pub register: u32,
}

/// What the scan of a template finds.
pub enum Scanned {
    /// The pairs of the prefix.
    Found { pairs: Seq<CallPop> },
    /// The template cannot be relocated.
    Failed(JitError),
}

/// The rest of `code` from `pos`.
pub open spec fn rest(code: Seq<u8>, pos: int) -> Seq<u8> {
    code.subrange(pos, code.len() as int)
}

/// The address of the byte at `pos` of a template loaded at `ip`.
pub open spec fn address(ip: u64, pos: int) -> u64 {
    wrap64(ip + pos) as u64
}

/// The instruction at `pos` of `code`, loaded at `ip`.
pub open spec fn insn_at(code: Seq<u8>, ip: u64, pos: int) -> Insn {
    decoded(32, rest(code, pos), address(ip, pos))
}

/// Whether the instruction has bytes and they lie in a template of `len` bytes.
pub open spec fn fits(insn: Insn, pos: int, len: int) -> bool {
    insn.len > 0 && pos + insn.len <= len
}

/// What one instruction means to the scan.
#[derive(Clone, Copy, Debug, PartialEq, Eq, Structural)]
pub enum Verdict {
    /// The instruction stays, and the scan goes on at this offset.
    Next(usize),
    /// The instruction is a `CALL` to the instruction after it, which lies at this
    /// offset and address: a `POP` must follow.
    Call { after: usize, target_ip: u32 },
    /// The template cannot be relocated.
    Fail(JitError),
}

/// The instruction at `pos` of `code`, loaded at `ip`, as a jump.
pub open spec fn jump_at(code: Seq<u8>, ip: u64, pos: int) -> Jump {
    jump_of(32, rest(code, pos), address(ip, pos))
}

/// What the instruction `insn`, which lies at `pos` in a template of `len` bytes
/// loaded at `ip`, means to the scan; `jump` is what it is as a branch. It must be
/// valid. Where it falls through to the next it stays, unless it is privileged. A
/// `JMP` forward within the template is followed. A `CALL` to the instruction after
/// it, which is not the last of the template, asks for a `POP`. Any other control
/// transfer is refused.
pub open spec fn judged(insn: Insn, jump: Jump, pos: int, len: int, ip: u64) -> Verdict {
    let to = wrap64(jump.target - ip);
    if insn.invalid || !fits(insn, pos, len) {
        Verdict::Fail(JitError::InvalidInstruction)
    } else if insn.flow == FLOW_NEXT {
        if insn.privileged {
            Verdict::Fail(JitError::UnsupportedInstruction)
        } else {
            Verdict::Next((pos + insn.len) as usize)
        }
    } else if insn.flow == FLOW_JUMP && jump.near && pos + insn.len <= to < len {
        Verdict::Next(to as usize)
    } else if insn.code == CODE_CALL_REL32_32 && jump.target32 == jump.next32 && pos + insn.len
        < len {
        Verdict::Call { after: (pos + insn.len) as usize, target_ip: jump.next32 }
    } else {
        Verdict::Fail(JitError::UnsupportedControlFlow)
    }
}

/// Judges the instruction `insn`, which lies at `pos` in a template of `len` bytes
/// loaded at `ip`.
pub fn judge(insn: Insn, jump: Jump, pos: usize, len: usize, ip: u64) -> (r: Verdict)
    requires
        pos <= len,
    ensures
        r == judged(insn, jump, pos as int, len as int, ip),
{
    if insn.invalid || insn.len == 0 || insn.len > len - pos {
        return Verdict::Fail(JitError::InvalidInstruction);
    }
    if insn.flow == FLOW_NEXT {
        return if insn.privileged {
            Verdict::Fail(JitError::UnsupportedInstruction)
        } else {
            Verdict::Next(pos + insn.len)
        };
    }
    let to = offset_from(ip, jump.target);
    if insn.flow == FLOW_JUMP && jump.near && to >= pos as u64 + insn.len as u64 && to
        < len as u64 {
        Verdict::Next(to as usize)
    } else if insn.code == CODE_CALL_REL32_32 && jump.target32 == jump.next32 && insn.len < len
        - pos {
        Verdict::Call { after: pos + insn.len, target_ip: jump.next32 }
    } else {
        Verdict::Fail(JitError::UnsupportedControlFlow)
    }
}

/// The pair that the `CALL` at `pos`, which pushes `target_ip`, makes with the
/// instruction `pop` at `after` in a template of `len` bytes: `pop` must be a `POP`
/// of a register.
pub open spec fn paired(pop: Insn, pos: int, after: int, target_ip: u32, len: int) -> Result<
    CallPop,
    JitError,
> {
    if pop.code == CODE_POP_R32 && fits(pop, after, len) && pop.op0 <= LAST_REGISTER {
        Ok(
            CallPop {
                offset: pos as usize,
                len: (after - pos + pop.len) as usize,
                target_ip,
                register: pop.op0,
            },
        )
    } else {
        Err(JitError::UnsupportedControlFlow)
    }
}

/// Pairs the `CALL` at `pos` with the instruction `pop` at `after`.
pub fn pair(pop: Insn, pos: usize, after: usize, target_ip: u32, len: usize) -> (r: Result<
    CallPop,
    JitError,
>)
    requires
        pos <= after <= len,
    ensures
        r == paired(pop, pos as int, after as int, target_ip, len as int),
{
    if pop.code == CODE_POP_R32 && pop.len != 0 && pop.len <= len - after && pop.op0
        <= LAST_REGISTER {
        Ok(CallPop { offset: pos, len: after - pos + pop.len, target_ip, register: pop.op0 })
    } else {
        Err(JitError::UnsupportedControlFlow)
    }
}

/// The scan from `pos`, with `pairs` found before it. The prefix ends where the code
/// that reads the marker slot begins, sixteen bytes before the marker. Before it every
/// instruction must be valid and fall through to the next, but for a `JMP` forward
/// within the template, which is followed, and for a `CALL` to the instruction after
/// it that a `POP` of a register follows.
pub open spec fn scan(
    code: Seq<u8>,
    ip: u64,
    magic: usize,
    pos: int,
    pairs: Seq<CallPop>,
) -> Scanned
    decreases code.len() - pos,
{
    if pos < 0 || pos >= code.len() {
        Scanned::Failed(JitError::NoThunkAsm)
    } else if pos + THUNK_CODE_BEFORE_MAGIC == magic {
        Scanned::Found { pairs }
    } else {
        match judged(
            insn_at(code, ip, pos),
            jump_at(code, ip, pos),
            pos,
            code.len() as int,
            ip,
        ) {
            Verdict::Fail(e) => Scanned::Failed(e),
            Verdict::Next(to) => if pos < to <= code.len() {
                scan(code, ip, magic, to as int, pairs)
            } else {
                Scanned::Failed(JitError::InvalidInstruction)
            },
            Verdict::Call { after, target_ip } => match paired(
                insn_at(code, ip, after as int),
                pos,
                after as int,
                target_ip,
                code.len() as int,
            ) {
                Err(e) => Scanned::Failed(e),
                Ok(pair) => if pos < pair.offset + pair.len <= code.len() {
                    scan(code, ip, magic, pair.offset + pair.len, pairs.push(pair))
                } else {
                    Scanned::Failed(JitError::InvalidInstruction)
                },
            },
        }
    }
}

/// The pairs come one after the other without overlap, below `end`.
pub open spec fn ordered(pairs: Seq<CallPop>, end: int) -> bool {
    &&& forall|k: int|
        0 <= k < pairs.len() ==> (#[trigger] pairs[k]).offset + pairs[k].len <= end
            && pairs[k].register <= LAST_REGISTER
    &&& forall|i: int, j: int|
        0 <= i < j < pairs.len() ==> (#[trigger] pairs[i]).offset + pairs[i].len <= (
        #[trigger] pairs[j]).offset
}

/// Scans the prefix of `code`.
fn scan_prefix(code: &[u8], ip: u64, magic: usize) -> (r: Result<Vec<CallPop>, JitError>)
    ensures
        match r {
            Ok(pairs) => scan(code@, ip, magic, 0, Seq::empty()) == (Scanned::Found {
                pairs: pairs@,
            }) && ordered(pairs@, code@.len() as int),
            Err(e) => scan(code@, ip, magic, 0, Seq::empty()) == Scanned::Failed(e),
        },
{
    let mut pairs: Vec<CallPop> = Vec::new();
    let mut pos: usize = 0;
    while pos < code.len()
        invariant
            pos <= code@.len(),
            scan(code@, ip, magic, 0, Seq::empty()) == scan(code@, ip, magic, pos as int, pairs@),
            ordered(pairs@, pos as int),
        decreases code@.len() - pos,
    {
        if magic >= THUNK_CODE_BEFORE_MAGIC && pos == magic - THUNK_CODE_BEFORE_MAGIC {
            return Ok(pairs);
        }
        let insn = decode(32, slice_subrange(code, pos, code.len()), advance64(ip, pos));
        let jump = decode_jump(32, slice_subrange(code, pos, code.len()), advance64(ip, pos));
        match judge(insn, jump, pos, code.len(), ip) {
            Verdict::Fail(e) => {
                return Err(e);
            },
            Verdict::Next(to) => {
                pos = to;
            },
            Verdict::Call { after, target_ip } => {
                let pop = decode(32, slice_subrange(code, after, code.len()), advance64(ip, after));
                let found = match pair(pop, pos, after, target_ip, code.len()) {
                    Ok(found) => found,
                    Err(e) => {
                        return Err(e);
                    },
                };
                proof {
                    let earlier = pairs@;
                    let later = earlier.push(found);
                    assert forall|i: int, j: int| 0 <= i < j < later.len() implies (
                    #[trigger] later[i]).offset + later[i].len <= (#[trigger] later[j]).offset by {
                        assert(later[i] == earlier[i]);
                        if j < earlier.len() {
                            assert(later[j] == earlier[j]);
                        }
                    }
                    assert forall|k: int| 0 <= k < later.len() implies (#[trigger] later[k]).offset
                        + later[k].len <= found.offset + found.len && later[k].register
                        <= LAST_REGISTER by {
                        if k < earlier.len() {
                            assert(later[k] == earlier[k]);
                        }
                    }
                }
                pairs.push(found);
                pos = found.offset + found.len;
            },
        }
    }
    Err(JitError::NoThunkAsm)
}

/// Where the template is taken up again after the first `upto` pairs.
pub open spec fn resumed(pairs: Seq<CallPop>, upto: int) -> int {
    if upto <= 0 {
        0
    } else {
        pairs[upto - 1].offset + pairs[upto - 1].len
    }
}

/// The template up to the end of pair `upto - 1`, with each pair replaced by the load
/// of the address that its `CALL` pushed into the register that its `POP` filled.
pub open spec fn emitted(code: Seq<u8>, pairs: Seq<CallPop>, upto: int) -> Option<Seq<u8>>
    decreases upto,
{
    if upto <= 0 {
        Some(Seq::empty())
    } else {
        match (
            emitted(code, pairs, upto - 1),
            mov_r32_imm32(pairs[upto - 1].register, pairs[upto - 1].target_ip),
        ) {
            (Some(head), Some(load)) => Some(
                head + code.subrange(resumed(pairs, upto - 1), pairs[upto - 1].offset as int)
                    + load,
            ),
            _ => None,
        }
    }
}

/// Once a pair cannot be replaced, neither can any run of pairs that holds it.
pub proof fn lemma_emitted_fails_on(code: Seq<u8>, pairs: Seq<CallPop>, upto: int, bound: int)
    requires
        emitted(code, pairs, upto) is None,
        upto <= bound,
    ensures
        emitted(code, pairs, bound) is None,
    decreases bound - upto,
{
    if upto < bound {
        lemma_emitted_fails_on(code, pairs, upto, bound - 1);
    }
}

/// The relocated template and the new offset of its marker slot.
///
/// Where the prefix holds no pair, the template stays as it is. Else each pair is
/// replaced, and the marker slot moves by as much as the template has changed in
/// length.
pub open spec fn relocated(
    code: Seq<u8>,
    ip: u64,
    magic: usize,
) -> Result<(Seq<u8>, int), JitError> {
    match scan(code, ip, magic, 0, Seq::empty()) {
        Scanned::Failed(e) => Err(e),
        Scanned::Found { pairs } => {
            if pairs.len() == 0 {
                Ok((code, magic as int))
            } else {
                match emitted(code, pairs, pairs.len() as int) {
                    None => Err(JitError::EncodingError),
                    Some(head) => {
                        let thunk = head + rest(code, resumed(pairs, pairs.len() as int));
                        let moved = magic + thunk.len() - code.len();
                        if 0 <= moved <= usize::MAX {
                            Ok((thunk, moved))
                        } else {
                            Err(JitError::EncodingError)
                        }
                    },
                }
            }
        },
    }
}

/// Relocates the template `thunk_template`, loaded at `ip`, whose marker lies
/// `magic_offset` bytes into it.
pub fn try_reloc_thunk_template<'a>(thunk_template: &'a [u8], ip: u64, magic_offset: usize) -> (r:
    Result<RelocThunk<'a>, JitError>)
    ensures
        match r {
            Ok(reloc) => relocated(thunk_template@, ip, magic_offset) == Ok::<
                (Seq<u8>, int),
                JitError,
            >((reloc.thunk@, reloc.magic_offset as int)),
            Err(e) => relocated(thunk_template@, ip, magic_offset) == Err::<
                (Seq<u8>, int),
                JitError,
            >(e),
        },
        r matches Ok(reloc) ==> (reloc.thunk is Borrowed <==> scan(
            thunk_template@,
            ip,
            magic_offset,
            0,
            Seq::empty(),
        ) == Scanned::Found { pairs: Seq::empty() }),
{
    let pairs = match scan_prefix(thunk_template, ip, magic_offset) {
        Ok(pairs) => pairs,
        Err(e) => {
            return Err(e);
        },
    };
    if pairs.len() == 0 {
        assert(pairs@ =~= Seq::empty());
        return Ok(RelocThunk { thunk: Cow::Borrowed(thunk_template), magic_offset });
    }
    let total = thunk_template.len();
    let mut new_bytes: Vec<u8> = Vec::new();
    let mut offset: usize = 0;
    let mut k: usize = 0;
    while k < pairs.len()
        invariant
            k <= pairs@.len(),
            total == thunk_template@.len(),
            pairs@.len() > 0,
            scan(thunk_template@, ip, magic_offset, 0, Seq::empty()) == (Scanned::Found {
                pairs: pairs@,
            }),
            ordered(pairs@, thunk_template@.len() as int),
            offset == resumed(pairs@, k as int),
            emitted(thunk_template@, pairs@, k as int) == Some(new_bytes@),
        decreases pairs@.len() - k,
    {
        let pair = pairs[k];
        proof {
            if k > 0 {
                assert(pairs@[k - 1].offset + pairs@[k - 1].len <= pairs@[k as int].offset);
            }
            assert(pairs@[k as int].offset + pairs@[k as int].len <= thunk_template@.len());
        }
        let load = match encode_mov_r32_imm32(pair.register, pair.target_ip) {
            Some(bytes) => bytes,
            None => {
                proof {
                    lemma_emitted_fails_on(
                        thunk_template@,
                        pairs@,
                        k as int + 1,
                        pairs@.len() as int,
                    );
                }
                return Err(JitError::EncodingError);
            },
        };
        new_bytes.extend_from_slice(slice_subrange(thunk_template, offset, pair.offset));
        new_bytes.extend_from_slice(load.as_slice());
        offset = pair.offset + pair.len;
        k += 1;
    }
    proof {
        assert(pairs@[pairs@.len() - 1].offset + pairs@[pairs@.len() - 1].len
            <= thunk_template@.len());
    }
    let ghost head = new_bytes@;
    new_bytes.extend_from_slice(slice_subrange(thunk_template, offset, thunk_template.len()));
    assert(new_bytes@ == head + rest(thunk_template@, resumed(pairs@, pairs@.len() as int)));
    let sum: u128 = magic_offset as u128 + new_bytes.len() as u128;
    let len: u128 = thunk_template.len() as u128;
    if sum < len || sum - len > usize::MAX as u128 {
        return Err(JitError::EncodingError);
    }
    Ok(RelocThunk { thunk: Cow::Owned(new_bytes), magic_offset: (sum - len) as usize })
}

/// The bytes by which the first `upto` pairs shrink when each becomes a load, which
/// takes five bytes.
pub open spec fn saved(pairs: Seq<CallPop>, upto: int) -> int
    decreases upto,
{
    if upto <= 0 {
        0
    } else {
        saved(pairs, upto - 1) + pairs[upto - 1].len - 5
    }
}

/// The template up to the end of a pair, with the pairs replaced, is shorter than it
/// was by what the pairs have shrunk.
pub proof fn lemma_emitted_len(code: Seq<u8>, pairs: Seq<CallPop>, upto: int)
    requires
        ordered(pairs, code.len() as int),
        0 <= upto <= pairs.len(),
        emitted(code, pairs, upto) is Some,
    ensures
        emitted(code, pairs, upto).unwrap().len() == resumed(pairs, upto) - saved(pairs, upto),
    decreases upto,
{
    if upto > 0 {
        lemma_emitted_len(code, pairs, upto - 1);
        if upto > 1 {
            assert(pairs[upto - 2].offset + pairs[upto - 2].len <= pairs[upto - 1].offset);
        }
        assert(pairs[upto - 1].offset + pairs[upto - 1].len <= code.len());
    }
}

/// The pairs that a scan finds come one after the other without overlap, within the
/// template.
pub proof fn lemma_scan_in_order(
    code: Seq<u8>,
    ip: u64,
    magic: usize,
    pos: int,
    pairs: Seq<CallPop>,
    found: Seq<CallPop>,
)
    requires
        code.len() <= usize::MAX,
        ordered(pairs, pos),
        scan(code, ip, magic, pos, pairs) == (Scanned::Found { pairs: found }),
    ensures
        ordered(found, code.len() as int),
    decreases code.len() - pos,
{
    if pos < 0 || pos >= code.len() || pos + THUNK_CODE_BEFORE_MAGIC == magic {
    } else {
        match judged(
            insn_at(code, ip, pos),
            jump_at(code, ip, pos),
            pos,
            code.len() as int,
            ip,
        ) {
            Verdict::Fail(_) => {},
            Verdict::Next(to) => {
                lemma_scan_in_order(code, ip, magic, to as int, pairs, found);
            },
            Verdict::Call { after, target_ip } => {
                let pair = paired(
                    insn_at(code, ip, after as int),
                    pos,
                    after as int,
                    target_ip,
                    code.len() as int,
                ).unwrap();
                let later = pairs.push(pair);
                assert forall|i: int, j: int| 0 <= i < j < later.len() implies (
                #[trigger] later[i]).offset + later[i].len <= (#[trigger] later[j]).offset by {
                    assert(later[i] == pairs[i]);
                    if j < pairs.len() {
                        assert(later[j] == pairs[j]);
                    }
                }
                assert forall|k: int| 0 <= k < later.len() implies (#[trigger] later[k]).offset
                    + later[k].len <= pair.offset + pair.len && later[k].register
                    <= LAST_REGISTER by {
                    if k < pairs.len() {
                        assert(later[k] == pairs[k]);
                    }
                }
                lemma_scan_in_order(
                    code,
                    ip,
                    magic,
                    pair.offset + pair.len,
                    pairs.push(pair),
                    found,
                );
            },
        }
    }
}

/// Where the pairs of the prefix are replaced, the marker slot moves down by what the
/// pairs have shrunk: by one byte for each `CALL` that its `POP` follows at once.
pub proof fn lemma_marker_moves(code: Seq<u8>, ip: u64, magic: usize, pairs: Seq<CallPop>)
    requires
        code.len() <= usize::MAX,
        scan(code, ip, magic, 0, Seq::empty()) == (Scanned::Found { pairs }),
        relocated(code, ip, magic) is Ok,
    ensures
        relocated(code, ip, magic).unwrap().1 == magic - saved(pairs, pairs.len() as int),
{
    lemma_scan_in_order(code, ip, magic, 0, Seq::empty(), pairs);
    if pairs.len() > 0 {
        let n = pairs.len() as int;
        lemma_emitted_len(code, pairs, n);
        assert(pairs[n - 1].offset + pairs[n - 1].len <= code.len());
    }
}

/// A scan drops no pair that it was given, and it finds the end of the prefix at or
/// behind where it began.
pub proof fn lemma_scan_extends(
    code: Seq<u8>,
    ip: u64,
    magic: usize,
    pos: int,
    pairs: Seq<CallPop>,
    found: Seq<CallPop>,
)
    requires
        scan(code, ip, magic, pos, pairs) == (Scanned::Found { pairs: found }),
    ensures
        pairs.len() <= found.len(),
        pos + THUNK_CODE_BEFORE_MAGIC <= magic,
    decreases code.len() - pos,
{
    if pos < 0 || pos >= code.len() || pos + THUNK_CODE_BEFORE_MAGIC == magic {
    } else {
        match judged(
            insn_at(code, ip, pos),
            jump_at(code, ip, pos),
            pos,
            code.len() as int,
            ip,
        ) {
            Verdict::Fail(_) => {},
            Verdict::Next(to) => {
                lemma_scan_extends(code, ip, magic, to as int, pairs, found);
            },
            Verdict::Call { after, target_ip } => {
                let pair = paired(
                    insn_at(code, ip, after as int),
                    pos,
                    after as int,
                    target_ip,
                    code.len() as int,
                ).unwrap();
                lemma_scan_extends(
                    code,
                    ip,
                    magic,
                    pair.offset + pair.len,
                    pairs.push(pair),
                    found,
                );
            },
        }
    }
}

/// Where the scan of a template goes on after an instruction, the scan of the
/// template with `ahead` bytes before it goes on at the same instruction.
pub proof fn lemma_judged_behind(
    insn: Insn,
    jump: Jump,
    ip: u64,
    ahead: int,
    pos: int,
    len: int,
)
    requires
        0 <= ahead,
        0 <= pos < len,
        len + ahead <= usize::MAX,
    ensures
        judged(insn, jump, pos, len, address(ip, ahead)) matches Verdict::Next(to) ==> judged(
            insn,
            jump,
            pos + ahead,
            len + ahead,
            ip,
        ) == Verdict::Next((to + ahead) as usize),
{
}

/// Where the scan of a template finds the end of its prefix and no pair, so does the
/// scan of the template with bytes before it, from where the template begins.
pub proof fn lemma_scan_behind(
    whole: Seq<u8>,
    part: Seq<u8>,
    ip: u64,
    ahead: int,
    magic: usize,
    pos: int,
)
    requires
        behind(whole, ahead, part),
        whole.len() <= usize::MAX,
        magic + ahead <= usize::MAX,
        0 <= pos,
        scan(part, address(ip, ahead), magic, pos, Seq::empty()) == (Scanned::Found {
            pairs: Seq::empty(),
        }),
    ensures
        scan(whole, ip, (magic + ahead) as usize, pos + ahead, Seq::empty()) == (Scanned::Found {
            pairs: Seq::empty(),
        }),
    decreases part.len() - pos,
{
    let there = address(ip, ahead);
    if pos < part.len() && pos + THUNK_CODE_BEFORE_MAGIC != magic {
        assert(rest(whole, pos + ahead) =~= rest(part, pos));
        assert(address(ip, pos + ahead) == address(there, pos));
        lemma_judged_behind(
            insn_at(part, there, pos),
            jump_at(part, there, pos),
            ip,
            ahead,
            pos,
            part.len() as int,
        );
        match judged(
            insn_at(part, there, pos),
            jump_at(part, there, pos),
            pos,
            part.len() as int,
            there,
        ) {
            Verdict::Fail(_) => {},
            Verdict::Next(to) => {
                lemma_scan_behind(whole, part, ip, ahead, magic, to as int);
            },
            Verdict::Call { after, target_ip } => {
                let pair = paired(
                    insn_at(part, there, after as int),
                    pos,
                    after as int,
                    target_ip,
                    part.len() as int,
                ).unwrap();
                lemma_scan_extends(
                    part,
                    there,
                    magic,
                    pair.offset + pair.len,
                    Seq::<CallPop>::empty().push(pair),
                    Seq::empty(),
                );
            },
        }
    }
}

/// A template whose prefix holds no `CALL` / `POP` pair is relocated to itself behind
/// a jump over the bytes between the two, whatever those bytes are: the scan follows
/// the jump and never reads them. The jump is what the decoder tells of the first
/// instruction: a near `JMP` that leads to where the template begins.
pub proof fn lemma_relocated_behind_jump(
    whole: Seq<u8>,
    part: Seq<u8>,
    ip: u64,
    ahead: int,
    magic: usize,
)
    requires
        behind(whole, ahead, part),
        whole.len() <= usize::MAX,
        magic + ahead <= usize::MAX,
        !insn_at(whole, ip, 0).invalid,
        0 < insn_at(whole, ip, 0).len <= ahead,
        insn_at(whole, ip, 0).flow == FLOW_JUMP,
        jump_at(whole, ip, 0).near,
        wrap64(jump_at(whole, ip, 0).target - ip) == ahead,
        scan(part, address(ip, ahead), magic, 0, Seq::empty()) == (Scanned::Found {
            pairs: Seq::empty(),
        }),
    ensures
        relocated(whole, ip, (magic + ahead) as usize) == Ok::<(Seq<u8>, int), JitError>(
            (whole, magic + ahead),
        ),
{
    lemma_scan_extends(part, address(ip, ahead), magic, 0, Seq::empty(), Seq::empty());
    lemma_scan_behind(whole, part, ip, ahead, magic, 0);
}

/// A template whose prefix holds no `CALL` / `POP` pair is relocated to itself, with
/// its marker where it was.
pub proof fn lemma_unchanged_without_pair(code: Seq<u8>, ip: u64, magic: usize)
    requires
        scan(code, ip, magic, 0, Seq::empty()) == (Scanned::Found { pairs: Seq::empty() }),
    ensures
        relocated(code, ip, magic) == Ok::<(Seq<u8>, int), JitError>((code, magic as int)),
{
}

} // verus!
