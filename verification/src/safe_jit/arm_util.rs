//! What the ARM and AArch64 engines share: the groups of instructions that cannot be
//! moved, a copy-on-write buffer that grows beside the template, and the rewriting of
//! a template whose address-dependent instructions are known: each becomes a literal
//! load of the address that it formed or read at, from a pool behind the template.

use vstd::prelude::*;
use vstd::slice::slice_subrange;
use std::borrow::Cow;
use crate::safe_jit::{JitError, RelocThunk};
use crate::safe_jit::aarch64::encoding::LdrImmOpc;
use crate::safe_jit::util::{
    address32, advance32, advance64, le32, le32_bytes, le64_bytes, le_bytes, lemma_apart_32,
    lemma_apart_64, lemma_le32_of_le_bytes, lemma_reach_32, lemma_reach_64, put4, wrap64,
    write4,
};

pub mod encoding_arm;
pub mod encoding_thumb;

verus! {

/// An operand does not fit its field.
#[derive(Debug, Clone, Copy)]
pub struct EncodingError;

/// The highest number of an instruction group that no engine moves: the invalid group,
/// jumps, calls, returns, interrupts, interrupt returns, privileged instructions and
/// relative branches are numbered 0 to 7.
pub const LAST_UNSUPPORTED_GROUP: u8 = 7;

/// Whether `group` is the number of a group that cannot be moved.
pub open spec fn unsupported_group(group: u8) -> bool {
    group <= LAST_UNSUPPORTED_GROUP
}

/// Whether one of `groups` is a group that cannot be moved.
pub open spec fn any_unsupported(groups: Seq<u8>) -> bool {
    exists|i: int| 0 <= i < groups.len() && unsupported_group(#[trigger] groups[i])
}

/// Whether an instruction that belongs to `groups` belongs to a group that cannot be
/// moved.
pub fn has_unsupported_insn_group(groups: &[u8]) -> (r: bool)
    ensures
        r == any_unsupported(groups@),
{
    let mut i: usize = 0;
    while i < groups.len()
        invariant
            i <= groups@.len(),
            forall|j: int| 0 <= j < i ==> !unsupported_group(#[trigger] groups@[j]),
        decreases groups@.len() - i,
    {
        if groups[i] <= LAST_UNSUPPORTED_GROUP {
            return true;
        }
        i += 1;
    }
    false
}

/// A buffer that stands for an edited copy of `orig` and copies nothing until the
/// first edit. Edits come at increasing offsets of `orig`: bytes are appended to the
/// new buffer, and what lies in `orig` before an edit is copied over just ahead of it.
pub struct CowBuffer<'a> {
    orig_bytes: &'a [u8],
    new_bytes: Vec<u8>,
    num_copied: usize,
}

impl<'a> CowBuffer<'a> {
    /// The bytes that the buffer was made from.
    pub closed spec fn orig(&self) -> Seq<u8> {
        self.orig_bytes@
    }

    /// The bytes written to the new buffer so far.
    pub closed spec fn written(&self) -> Seq<u8> {
        self.new_bytes@
    }

    /// How many bytes of `orig` have been copied or passed over.
    pub closed spec fn copied(&self) -> nat {
        self.num_copied as nat
    }

    /// No more of `orig` is consumed than it holds.
    pub open spec fn wf(&self) -> bool {
        self.copied() <= self.orig().len()
    }

    /// The bytes that the buffer stands for: `orig` itself while nothing was written,
    /// else what was written followed by the rest of `orig`.
    pub open spec fn bytes(&self) -> Seq<u8> {
        if self.written().len() == 0 {
            self.orig()
        } else {
            self.written() + self.orig().subrange(self.copied() as int, self.orig().len() as int)
        }
    }

    /// The buffer that stands for `orig_bytes`, with nothing written yet.
    pub fn new(orig_bytes: &'a [u8]) -> (r: Self)
        ensures
            r.wf(),
            r.orig() == orig_bytes@,
            r.written() == Seq::<u8>::empty(),
            r.copied() == 0,
    {
        CowBuffer { orig_bytes, new_bytes: Vec::new(), num_copied: 0 }
    }

    /// The bytes that the buffer stands for, borrowed from `orig` while nothing was
    /// written.
    pub fn into_bytes(self) -> (r: Cow<'a, [u8]>)
        requires
            self.wf(),
        ensures
            r@ == self.bytes(),
            r is Borrowed <==> self.written().len() == 0,
    {
        let mut this = self;
        if this.new_bytes.len() == 0 {
            Cow::Borrowed(this.orig_bytes)
        } else {
            let rest = slice_subrange(this.orig_bytes, this.num_copied, this.orig_bytes.len());
            this.new_bytes.extend_from_slice(rest);
            Cow::Owned(this.new_bytes)
        }
    }

    /// The new buffer.
    pub fn new_bytes(&self) -> (r: &[u8])
        ensures
            r@ == self.written(),
    {
        self.new_bytes.as_slice()
    }

    /// The new buffer, to be grown by the caller.
    pub fn new_bytes_mut(&mut self) -> (r: &mut Vec<u8>)
        ensures
            r@ == old(self).written(),
            final(self).written() == final(r)@,
            final(self).orig() == old(self).orig(),
            final(self).copied() == old(self).copied(),
    {
        &mut self.new_bytes
    }

    /// Copies `orig` into the new buffer up to `offset`.
    pub fn copy_up_to(&mut self, offset: usize)
        requires
            old(self).copied() <= offset <= old(self).orig().len(),
        ensures
            final(self).wf(),
            final(self).orig() == old(self).orig(),
            final(self).written() == old(self).written() + old(self).orig().subrange(
                old(self).copied() as int,
                offset as int,
            ),
            final(self).copied() == offset,
    {
        if self.new_bytes.len() == 0 {
            self.new_bytes = Vec::with_capacity(self.orig_bytes.len());
        }
        let part = slice_subrange(self.orig_bytes, self.num_copied, offset);
        self.new_bytes.extend_from_slice(part);
        self.num_copied = offset;
    }

    /// Appends `bytes` to the new buffer, after `orig` up to `offset`. Gives the offset
    /// of `bytes` in the new buffer.
    pub fn append(&mut self, offset: usize, bytes: &[u8]) -> (r: usize)
        requires
            old(self).wf(),
            bytes@.len() > 0 ==> old(self).copied() <= offset <= old(self).orig().len(),
        ensures
            final(self).wf(),
            final(self).orig() == old(self).orig(),
            bytes@.len() > 0 ==> final(self).copied() == offset && final(self).written()
                == old(self).written() + old(self).orig().subrange(
                old(self).copied() as int,
                offset as int,
            ) + bytes@,
            bytes@.len() == 0 ==> final(self).copied() == old(self).copied() && final(
                self
            ).written() == old(self).written(),
            r + bytes@.len() == final(self).written().len(),
    {
        if bytes.len() != 0 {
            self.copy_up_to(offset);
        }
        let bytes_offset = self.new_bytes.len();
        self.new_bytes.extend_from_slice(bytes);
        bytes_offset
    }

    /// Passes over `count` bytes of `orig` at `offset`, after copying `orig` up to
    /// `offset`. Gives the offset in the new buffer at which they would have stood.
    pub fn ignore(&mut self, offset: usize, count: usize) -> (r: usize)
        requires
            old(self).copied() <= offset,
            offset + count <= old(self).orig().len(),
        ensures
            final(self).wf(),
            final(self).orig() == old(self).orig(),
            final(self).written() == old(self).written() + old(self).orig().subrange(
                old(self).copied() as int,
                offset as int,
            ),
            final(self).copied() == offset + count,
            r == final(self).written().len(),
    {
        self.copy_up_to(offset);
        let len = self.orig_bytes.len();
        assert(self.num_copied + count <= len);
        self.num_copied += count;
        self.new_bytes.len()
    }

    /// Puts `bytes` in the place of as many bytes of `orig` at `offset`. Gives the
    /// offset of `bytes` in the new buffer.
    pub fn replace(&mut self, offset: usize, bytes: &[u8]) -> (r: usize)
        requires
            old(self).wf(),
            bytes@.len() > 0 ==> old(self).copied() <= offset,
            bytes@.len() > 0 ==> offset + bytes@.len() <= old(self).orig().len(),
        ensures
            final(self).wf(),
            final(self).orig() == old(self).orig(),
            bytes@.len() > 0 ==> final(self).copied() == offset + bytes@.len() && final(
                self
            ).written() == old(self).written() + old(self).orig().subrange(
                old(self).copied() as int,
                offset as int,
            ) + bytes@,
            bytes@.len() == 0 ==> final(self).copied() == old(self).copied() && final(
                self
            ).written() == old(self).written(),
            r + bytes@.len() == final(self).written().len(),
    {
        let bytes_offset = self.append(offset, bytes);
        let len = self.orig_bytes.len();
        assert(self.num_copied + bytes@.len() <= len);
        self.num_copied += bytes.len();
        bytes_offset
    }
}

/// An instruction set whose engine keeps absolute addresses in a literal pool.
#[derive(Clone, Copy, Debug, PartialEq, Eq, Structural)]
pub enum Isa {
    /// AArch64: pointers of eight bytes.
    AArch64,
    /// 32-bit ARM, A32 instructions.
    Arm,
    /// 32-bit ARM, Thumb instructions.
    Thumb,
}

impl Isa {
    /// The size of a pointer, and so of a pool entry, in bytes.
    pub open spec fn pointer_size(self) -> int {
        match self {
            Isa::AArch64 => 8,
            _ => 4,
        }
    }
}

/// One instruction to rewrite. In its place come a literal load of `target` into
/// `reg`, four bytes long, and then the bytes of `follow`: nothing where the
/// instruction only formed the address, or the load through `reg` where it loaded
/// from the address.
pub struct Fix {
    /// The offset of the instruction in the template.
    pub at: usize,
    /// Its length in bytes.
    pub len: usize,
    /// The register that takes the address.
    pub reg: u32,
    /// The absolute address.
    pub target: u64,
    /// What follows the literal load.
    pub follow: Vec<u8>,
}

/// A fix as a value.
pub struct FixView {
    pub at: usize,
    pub len: usize,
    pub reg: u32,
    pub target: u64,
    pub follow: Seq<u8>,
}

impl View for Fix {
    type V = FixView;

    open spec fn view(&self) -> FixView {
        FixView {
            at: self.at,
            len: self.len,
            reg: self.reg,
            target: self.target,
            follow: self.follow@,
        }
    }
}

/// The fixes as values.
pub open spec fn views(fixes: Seq<Fix>) -> Seq<FixView> {
    Seq::new(fixes.len(), |k: int| fixes[k]@)
}

/// The instructions lie in the template below `end`, in order and without overlap,
/// and none takes more room than what comes in its place.
pub open spec fn ordered(fixes: Seq<FixView>, end: int) -> bool {
    &&& forall|k: int|
        0 <= k < fixes.len() ==> (#[trigger] fixes[k]).at + fixes[k].len <= end && fixes[k].len
            <= 4 + fixes[k].follow.len()
    &&& forall|i: int, j: int|
        0 <= i < j < fixes.len() ==> (#[trigger] fixes[i]).at + fixes[i].len <= (
        #[trigger] fixes[j]).at
}

/// Where the template is taken up again after the first `upto` fixes.
pub open spec fn resumed(fixes: Seq<FixView>, upto: int) -> int {
    if upto <= 0 {
        0
    } else {
        fixes[upto - 1].at + fixes[upto - 1].len
    }
}

/// What one instruction means to the scan.
pub enum Step {
    /// The instruction reads the marker slot: the prefix ends.
    Marker,
    /// The scan goes on at this offset.
    Next(int),
    /// The instruction is to be rewritten, and the scan goes on after it.
    Rewritten(FixView),
    /// The template cannot be relocated.
    Stop(JitError),
}

/// What one instruction means to the scan.
pub enum Stepped {
    /// The instruction reads the marker slot: the prefix ends.
    Marker,
    /// The scan goes on at this offset.
    Next(usize),
    /// The instruction is to be rewritten, and the scan goes on after it.
    Rewritten(Fix),
    /// The template cannot be relocated.
    Stop(JitError),
}

impl View for Stepped {
    type V = Step;

    open spec fn view(&self) -> Step {
        match *self {
            Stepped::Marker => Step::Marker,
            Stepped::Next(to) => Step::Next(to as int),
            Stepped::Rewritten(fix) => Step::Rewritten(fix@),
            Stepped::Stop(e) => Step::Stop(e),
        }
    }
}

/// A fix at the end of the scanned part keeps the fixes in order.
pub proof fn lemma_ordered_push(fixes: Seq<FixView>, fix: FixView, off: int)
    requires
        ordered(fixes, off),
        fix.at == off,
        fix.len <= 4 + fix.follow.len(),
    ensures
        ordered(fixes.push(fix), off + fix.len),
{
    let later = fixes.push(fix);
    assert forall|k: int| 0 <= k < later.len() implies (#[trigger] later[k]).at + later[k].len
        <= off + fix.len && later[k].len <= 4 + later[k].follow.len() by {
        if k < fixes.len() {
            assert(later[k] == fixes[k]);
        }
    }
    assert forall|i: int, j: int| 0 <= i < j < later.len() implies (#[trigger] later[i]).at
        + later[i].len <= (#[trigger] later[j]).at by {
        assert(later[i] == fixes[i]);
        if j < fixes.len() {
            assert(later[j] == fixes[j]);
        }
    }
}

/// The four zero bytes that keep the place of a literal load until the pool is laid
/// out.
pub open spec fn placeholder() -> Seq<u8> {
    seq![0u8, 0u8, 0u8, 0u8]
}

/// The template up to the end of fix `upto - 1`, with each fixed instruction replaced
/// by a placeholder and what follows it.
pub open spec fn body(code: Seq<u8>, fixes: Seq<FixView>, upto: int) -> Seq<u8>
    decreases upto,
{
    if upto <= 0 {
        Seq::empty()
    } else {
        body(code, fixes, upto - 1) + code.subrange(
            resumed(fixes, upto - 1),
            fixes[upto - 1].at as int,
        ) + placeholder() + fixes[upto - 1].follow
    }
}

/// The offset of the placeholder of fix `k` in the rewritten template.
pub open spec fn slot_at(code: Seq<u8>, fixes: Seq<FixView>, k: int) -> int {
    body(code, fixes, k + 1).len() - fixes[k].follow.len() - 4
}

/// The whole rewritten template, placeholders in place.
pub open spec fn text(code: Seq<u8>, fixes: Seq<FixView>) -> Seq<u8> {
    body(code, fixes, fixes.len() as int) + code.subrange(
        resumed(fixes, fixes.len() as int),
        code.len() as int,
    )
}

/// By how many bytes the first `upto` fixes lengthen the template.
pub open spec fn shift(fixes: Seq<FixView>, upto: int) -> int
    decreases upto,
{
    if upto <= 0 {
        0
    } else {
        shift(fixes, upto - 1) + 4 + fixes[upto - 1].follow.len() - fixes[upto - 1].len
    }
}

/// The zero bytes between the rewritten template and the pool: half a pointer where
/// the pool would else not be pointer-aligned relative to the marker slot at `magic`.
pub open spec fn padding(isa: Isa, len: int, magic: int) -> Seq<u8> {
    if (len - magic) % isa.pointer_size() != 0 {
        Seq::new((isa.pointer_size() / 2) as nat, |i: int| 0u8)
    } else {
        Seq::empty()
    }
}

/// An address at which a buffer whose marker slot lies `moved` bytes into it can
/// stand: one that brings the marker slot in line with pointers.
pub open spec fn stands_at(isa: Isa, base: int, moved: int) -> bool {
    0 <= base && (base + moved) % isa.pointer_size() == 0
}

/// The lowest address at which a buffer whose marker slot lies `moved` bytes into it
/// can stand.
pub open spec fn base_of(isa: Isa, moved: int) -> int {
    (isa.pointer_size() - moved % isa.pointer_size()) % isa.pointer_size()
}

/// The literal load, placed `at` bytes into a buffer loaded at `base`, of the pointer
/// `slot` bytes into the buffer, into `reg`, where the load can reach the slot.
pub open spec fn literal_load(isa: Isa, base: u64, at: int, reg: u32, slot: int) -> Option<
    Seq<u8>,
> {
    let word = match isa {
        Isa::AArch64 => crate::safe_jit::aarch64::encoding::LdrImm::encoded_at(
            wrap64(base + at) as u64,
            LdrImmOpc::Load64,
            reg,
            wrap64(base + slot) as u64,
        ),
        Isa::Arm => crate::safe_jit::arm_util::encoding_arm::LdrImm::encoded_lit(
            address32(base as u32, at) as u32,
            reg,
            address32(base as u32, slot) as u32,
        ),
        Isa::Thumb => crate::safe_jit::arm_util::encoding_thumb::LdrImm::encoded_lit(
            address32(base as u32, at) as u32,
            reg,
            address32(base as u32, slot) as u32,
        ),
    };
    match word {
        Some(word) => Some(le_bytes(word as int, 4)),
        None => None,
    }
}

/// The buffer after the first `upto` fixes got their pool entries: each entry is
/// appended to the buffer, and the placeholder of its fix becomes the literal load
/// of it.
pub open spec fn laid(
    isa: Isa,
    base: u64,
    code: Seq<u8>,
    fixes: Seq<FixView>,
    padded: Seq<u8>,
    upto: int,
) -> Option<Seq<u8>>
    decreases upto,
{
    if upto <= 0 {
        Some(padded)
    } else {
        match laid(isa, base, code, fixes, padded, upto - 1) {
            None => None,
            Some(prev) => match literal_load(
                isa,
                base,
                slot_at(code, fixes, upto - 1),
                fixes[upto - 1].reg,
                prev.len() as int,
            ) {
                None => None,
                Some(load) => Some(
                    write4(prev, slot_at(code, fixes, upto - 1), load) + le_bytes(
                        fixes[upto - 1].target as int,
                        isa.pointer_size() as nat,
                    ),
                ),
            },
        }
    }
}

/// The relocated template and the new offset of its marker slot, for a template
/// whose fixes are `fixes`.
///
/// With no fix the template stays as it is. Else the fixed instructions are replaced,
/// the marker slot moves by as much as the fixes before it lengthen the template, the
/// pool follows the template, aligned relative to the marker slot, and each literal
/// load must reach its pool entry.
///
/// The relocated template is made to stand where its marker slot is in line with
/// pointers, wherever the template stood: a literal load reads relative to the word
/// that its address lies in, and so it is encoded for such a place.
pub open spec fn assembled(isa: Isa, code: Seq<u8>, magic: usize, fixes: Seq<FixView>) -> Result<
    (Seq<u8>, int),
    JitError,
> {
    if fixes.len() == 0 {
        Ok((code, magic as int))
    } else {
        let moved = magic + shift(fixes, fixes.len() as int);
        if moved > usize::MAX {
            Err(JitError::EncodingError)
        } else {
            let padded = text(code, fixes) + padding(isa, text(code, fixes).len() as int, moved);
            match laid(isa, base_of(isa, moved) as u64, code, fixes, padded, fixes.len() as int) {
                None => Err(JitError::EncodingError),
                Some(thunk) => Ok((thunk, moved)),
            }
        }
    }
}

/// The fixes never shorten the template.
pub proof fn lemma_shift_grows(fixes: Seq<FixView>, end: int, upto: int, bound: int)
    requires
        ordered(fixes, end),
        0 <= upto <= bound <= fixes.len(),
    ensures
        0 <= shift(fixes, upto) <= shift(fixes, bound),
    decreases bound,
{
    if bound > 0 {
        if upto < bound {
            lemma_shift_grows(fixes, end, upto, bound - 1);
            assert(fixes[bound - 1].len <= 4 + fixes[bound - 1].follow.len());
        } else {
            lemma_shift_grows(fixes, end, upto - 1, bound - 1);
            assert(fixes[bound - 1].len <= 4 + fixes[bound - 1].follow.len());
        }
    }
}

/// Once a literal load cannot reach its pool entry, no longer layout succeeds.
pub proof fn lemma_laid_fails_on(
    isa: Isa,
    base: u64,
    code: Seq<u8>,
    fixes: Seq<FixView>,
    padded: Seq<u8>,
    upto: int,
    bound: int,
)
    requires
        laid(isa, base, code, fixes, padded, upto) is None,
        upto <= bound,
    ensures
        laid(isa, base, code, fixes, padded, bound) is None,
    decreases bound - upto,
{
    if upto < bound {
        lemma_laid_fails_on(isa, base, code, fixes, padded, upto, bound - 1);
    }
}

/// The placeholders lie in the rewritten template one after the other.
pub proof fn lemma_slots_in_order(code: Seq<u8>, fixes: Seq<FixView>, k: int, j: int)
    requires
        ordered(fixes, code.len() as int),
        0 <= k <= j < fixes.len(),
    ensures
        0 <= slot_at(code, fixes, k),
        k < j ==> slot_at(code, fixes, k) + 4 <= slot_at(code, fixes, j),
        slot_at(code, fixes, j) + 4 <= text(code, fixes).len(),
        body(code, fixes, k).len() <= body(code, fixes, j).len(),
    decreases fixes.len() - k,
{
    assert(fixes[k].at + fixes[k].len <= code.len());
    if k > 0 {
        assert(fixes[k - 1].at + fixes[k - 1].len <= fixes[k].at);
    }
    if k < j {
        lemma_slots_in_order(code, fixes, k + 1, j);
    } else if k + 1 < fixes.len() {
        lemma_slots_in_order(code, fixes, k + 1, k + 1);
    }
}

/// The offset of the pool entry of fix `k` in the finished buffer: the length of the
/// buffer when the entry is appended.
pub open spec fn entry_at(
    isa: Isa,
    base: u64,
    code: Seq<u8>,
    fixes: Seq<FixView>,
    padded: Seq<u8>,
    k: int,
) -> int {
    match laid(isa, base, code, fixes, padded, k) {
        Some(before) => before.len() as int,
        None => 0,
    }
}

/// A word written into a buffer, with an entry appended: the word and the entry are
/// there, and what lay elsewhere is as it was.
pub proof fn lemma_write_keeps(prev: Seq<u8>, at: int, load: Seq<u8>, entry: Seq<u8>)
    requires
        load.len() == 4,
        0 <= at,
        at + 4 <= prev.len(),
    ensures
        (write4(prev, at, load) + entry).len() == prev.len() + entry.len(),
        (write4(prev, at, load) + entry).subrange(at, at + 4) == load,
        (write4(prev, at, load) + entry).subrange(
            prev.len() as int,
            (prev.len() + entry.len()) as int,
        ) == entry,
        forall|lo: int, hi: int|
            0 <= lo <= hi <= prev.len() && (hi <= at || at + 4 <= lo) ==> #[trigger] (write4(
                prev,
                at,
                load,
            ) + entry).subrange(lo, hi) == prev.subrange(lo, hi),
{
    let out = write4(prev, at, load) + entry;
    assert(out.subrange(at, at + 4) =~= load);
    assert(out.subrange(prev.len() as int, (prev.len() + entry.len()) as int) =~= entry);
    assert forall|lo: int, hi: int|
        0 <= lo <= hi <= prev.len() && (hi <= at || at + 4 <= lo) implies #[trigger] out.subrange(
        lo,
        hi,
    ) == prev.subrange(lo, hi) by {
        assert(out.subrange(lo, hi) =~= prev.subrange(lo, hi));
    }
}

/// One step of the layout: the buffer after `upto` fixes is the buffer before the
/// last of them, with the literal load of that fix written and its entry appended.
pub proof fn lemma_laid_step(
    isa: Isa,
    base: u64,
    code: Seq<u8>,
    fixes: Seq<FixView>,
    padded: Seq<u8>,
    upto: int,
)
    requires
        0 < upto,
        laid(isa, base, code, fixes, padded, upto) is Some,
    ensures
        laid(isa, base, code, fixes, padded, upto - 1) is Some,
        literal_load(
            isa,
            base,
            slot_at(code, fixes, upto - 1),
            fixes[upto - 1].reg,
            entry_at(isa, base, code, fixes, padded, upto - 1),
        ) is Some,
        literal_load(
            isa,
            base,
            slot_at(code, fixes, upto - 1),
            fixes[upto - 1].reg,
            entry_at(isa, base, code, fixes, padded, upto - 1),
        )->0.len() == 4,
        laid(isa, base, code, fixes, padded, upto)->0 == write4(
            laid(isa, base, code, fixes, padded, upto - 1)->0,
            slot_at(code, fixes, upto - 1),
            literal_load(
                isa,
                base,
                slot_at(code, fixes, upto - 1),
                fixes[upto - 1].reg,
                entry_at(isa, base, code, fixes, padded, upto - 1),
            )->0,
        ) + le_bytes(fixes[upto - 1].target as int, isa.pointer_size() as nat),
{
}

/// What the layout gives to fix `k` stays: once its entry is appended and its
/// placeholder filled, every later state of the buffer holds, at the placeholder,
/// the literal load of the entry into the register of the fix, and, at the entry, the
/// address that the fix stands for.
pub proof fn lemma_laid_keeps(
    isa: Isa,
    base: u64,
    code: Seq<u8>,
    fixes: Seq<FixView>,
    padded: Seq<u8>,
    k: int,
    upto: int,
)
    requires
        ordered(fixes, code.len() as int),
        text(code, fixes).len() <= padded.len(),
        0 <= k < upto <= fixes.len(),
        laid(isa, base, code, fixes, padded, upto) is Some,
    ensures
        ({
            let out = laid(isa, base, code, fixes, padded, upto)->0;
            let slot = slot_at(code, fixes, k);
            let entry = entry_at(isa, base, code, fixes, padded, k);
            &&& 0 <= slot
            &&& slot + 4 <= padded.len() <= entry
            &&& entry + isa.pointer_size() <= out.len()
            &&& literal_load(isa, base, slot, fixes[k].reg, entry) == Some(
                out.subrange(slot, slot + 4),
            )
            &&& out.subrange(entry, entry + isa.pointer_size()) == le_bytes(
                fixes[k].target as int,
                isa.pointer_size() as nat,
            )
        }),
    decreases upto,
{
    let last = upto - 1;
    lemma_laid_step(isa, base, code, fixes, padded, upto);
    let prev = laid(isa, base, code, fixes, padded, last)->0;
    let out = laid(isa, base, code, fixes, padded, upto)->0;
    let at = slot_at(code, fixes, last);
    let load = literal_load(isa, base, at, fixes[last].reg, prev.len() as int)->0;
    let word = le_bytes(fixes[last].target as int, isa.pointer_size() as nat);
    lemma_slots_in_order(code, fixes, k, last);
    lemma_slots_in_order(code, fixes, last, last);
    lemma_laid_grows(isa, base, code, fixes, padded, last);
    lemma_write_keeps(prev, at, load, word);
    if k != last {
        lemma_laid_keeps(isa, base, code, fixes, padded, k, last);
    }
}

/// The layout only lengthens the buffer.
pub proof fn lemma_laid_grows(
    isa: Isa,
    base: u64,
    code: Seq<u8>,
    fixes: Seq<FixView>,
    padded: Seq<u8>,
    upto: int,
)
    requires
        ordered(fixes, code.len() as int),
        text(code, fixes).len() <= padded.len(),
        0 <= upto <= fixes.len(),
        laid(isa, base, code, fixes, padded, upto) is Some,
    ensures
        padded.len() <= laid(isa, base, code, fixes, padded, upto)->0.len(),
    decreases upto,
{
    if upto > 0 {
        lemma_laid_grows(isa, base, code, fixes, padded, upto - 1);
        lemma_slots_in_order(code, fixes, upto - 1, upto - 1);
    }
}

/// In a relocated template every fixed instruction still finds its address: the
/// place of fix `k` holds the literal load, into the register of the fix, of a pool
/// entry, and that entry holds the address that the instruction formed or read at
/// where it stood. The entry lies behind the template, in line with the marker slot,
/// and each fix has an entry of its own.
pub proof fn lemma_assembled_loads_reach(
    isa: Isa,
    code: Seq<u8>,
    magic: usize,
    fixes: Seq<FixView>,
    k: int,
)
    requires
        ordered(fixes, code.len() as int),
        0 <= k < fixes.len(),
        assembled(isa, code, magic, fixes) is Ok,
    ensures
        ({
            let thunk = assembled(isa, code, magic, fixes)->Ok_0.0;
            let moved = assembled(isa, code, magic, fixes)->Ok_0.1;
            let slot = slot_at(code, fixes, k);
            let entry = pool_entry(isa, code, magic, fixes, k);
            &&& moved == magic + shift(fixes, fixes.len() as int)
            &&& 0 <= slot && slot + 4 <= text(code, fixes).len() <= entry
            &&& entry + isa.pointer_size() <= thunk.len()
            &&& literal_load(isa, base_of(isa, moved) as u64, slot, fixes[k].reg, entry) == Some(
                thunk.subrange(slot, slot + 4),
            )
            &&& thunk.subrange(entry, entry + isa.pointer_size()) == le_bytes(
                fixes[k].target as int,
                isa.pointer_size() as nat,
            )
        }),
{
    let moved = magic + shift(fixes, fixes.len() as int);
    let base = base_of(isa, moved) as u64;
    let padded = text(code, fixes) + padding(isa, text(code, fixes).len() as int, moved);
    lemma_laid_keeps(isa, base, code, fixes, padded, k, fixes.len() as int);
    lemma_laid_prefix(isa, base, code, fixes, padded, k, fixes.len() as int);
    lemma_laid_len(isa, base, code, fixes, padded, k);
    lemma_slots_in_order(code, fixes, k, k);
}

/// Where the placeholder of fix `k` lies: behind the rewritten template up to the fix
/// before it and the bytes of the template between the two, and before what follows
/// the literal load.
pub proof fn lemma_slot_bounds(code: Seq<u8>, fixes: Seq<FixView>, k: int)
    requires
        ordered(fixes, code.len() as int),
        0 <= k < fixes.len(),
    ensures
        0 <= resumed(fixes, k) <= fixes[k].at <= code.len(),
        slot_at(code, fixes, k) == body(code, fixes, k).len() + fixes[k].at - resumed(fixes, k),
        slot_at(code, fixes, k) + 4 + fixes[k].follow.len() == body(code, fixes, k + 1).len(),
{
    assert(fixes[k].at + fixes[k].len <= code.len());
    if k > 0 {
        assert(fixes[k - 1].at + fixes[k - 1].len <= fixes[k].at);
    }
}

/// The rewritten template up to a fix begins with the rewritten template up to any
/// fix before it.
pub proof fn lemma_body_grows(code: Seq<u8>, fixes: Seq<FixView>, k: int, upto: int)
    requires
        ordered(fixes, code.len() as int),
        0 <= k <= upto <= fixes.len(),
    ensures
        body(code, fixes, k).len() <= body(code, fixes, upto).len(),
        body(code, fixes, upto).subrange(0, body(code, fixes, k).len() as int) == body(
            code,
            fixes,
            k,
        ),
    decreases upto - k,
{
    if k < upto {
        lemma_body_grows(code, fixes, k, upto - 1);
        lemma_slot_bounds(code, fixes, upto - 1);
        assert(body(code, fixes, upto).subrange(0, body(code, fixes, k).len() as int)
            =~= body(code, fixes, upto - 1).subrange(0, body(code, fixes, k).len() as int));
    } else {
        assert(body(code, fixes, upto).subrange(0, body(code, fixes, k).len() as int)
            =~= body(code, fixes, k));
    }
}

/// The parts of the rewritten template: before the placeholder of fix `k` lie the
/// bytes of the template between the fix before it and the fixed instruction, behind
/// the placeholder lies what follows the literal load, and behind the last fix lies
/// the rest of the template.
pub proof fn lemma_text_parts(code: Seq<u8>, fixes: Seq<FixView>, k: int)
    requires
        ordered(fixes, code.len() as int),
        0 <= k < fixes.len(),
    ensures
        ({
            let all = text(code, fixes);
            let slot = slot_at(code, fixes, k);
            let n = fixes.len() as int;
            &&& body(code, fixes, n).len() <= all.len()
            &&& all.subrange(body(code, fixes, k).len() as int, slot) == code.subrange(
                resumed(fixes, k),
                fixes[k].at as int,
            )
            &&& all.subrange(slot + 4, slot + 4 + fixes[k].follow.len()) == fixes[k].follow
            &&& all.subrange(body(code, fixes, n).len() as int, all.len() as int)
                == code.subrange(resumed(fixes, n), code.len() as int)
        }),
{
    let all = text(code, fixes);
    let slot = slot_at(code, fixes, k);
    let n = fixes.len() as int;
    let next = body(code, fixes, k + 1);
    lemma_slot_bounds(code, fixes, k);
    lemma_body_grows(code, fixes, k + 1, n);
    lemma_text_len(code, fixes, n);
    assert(all.subrange(0, next.len() as int) =~= next);
    assert(all.subrange(body(code, fixes, k).len() as int, slot) =~= next.subrange(
        body(code, fixes, k).len() as int,
        slot,
    ));
    assert(next.subrange(body(code, fixes, k).len() as int, slot) =~= code.subrange(
        resumed(fixes, k),
        fixes[k].at as int,
    ));
    assert(all.subrange(slot + 4, slot + 4 + fixes[k].follow.len()) =~= next.subrange(
        slot + 4,
        slot + 4 + fixes[k].follow.len(),
    ));
    assert(next.subrange(slot + 4, slot + 4 + fixes[k].follow.len()) =~= fixes[k].follow);
    assert(all.subrange(body(code, fixes, n).len() as int, all.len() as int) =~= code.subrange(
        resumed(fixes, n),
        code.len() as int,
    ));
}

/// The layout changes the placeholders and nothing else of what it was given.
pub proof fn lemma_laid_elsewhere(
    isa: Isa,
    base: u64,
    code: Seq<u8>,
    fixes: Seq<FixView>,
    padded: Seq<u8>,
    upto: int,
    lo: int,
    hi: int,
)
    requires
        ordered(fixes, code.len() as int),
        text(code, fixes).len() <= padded.len(),
        0 <= upto <= fixes.len(),
        laid(isa, base, code, fixes, padded, upto) is Some,
        0 <= lo <= hi <= padded.len(),
        forall|j: int|
            0 <= j < upto ==> hi <= #[trigger] slot_at(code, fixes, j) || slot_at(code, fixes, j)
                + 4 <= lo,
    ensures
        laid(isa, base, code, fixes, padded, upto)->0.subrange(lo, hi) == padded.subrange(lo, hi),
    decreases upto,
{
    if upto > 0 {
        let last = upto - 1;
        lemma_laid_step(isa, base, code, fixes, padded, upto);
        let prev = laid(isa, base, code, fixes, padded, last)->0;
        let at = slot_at(code, fixes, last);
        let load = literal_load(isa, base, at, fixes[last].reg, prev.len() as int)->0;
        let word = le_bytes(fixes[last].target as int, isa.pointer_size() as nat);
        lemma_slots_in_order(code, fixes, last, last);
        lemma_laid_grows(isa, base, code, fixes, padded, last);
        lemma_write_keeps(prev, at, load, word);
        assert((write4(prev, at, load) + word).subrange(lo, hi) == prev.subrange(lo, hi));
        lemma_laid_elsewhere(isa, base, code, fixes, padded, last, lo, hi);
    }
}

/// Part of the rewritten template that holds no placeholder stands in the relocated
/// template as it is.
pub proof fn lemma_assembled_elsewhere(
    isa: Isa,
    code: Seq<u8>,
    magic: usize,
    fixes: Seq<FixView>,
    lo: int,
    hi: int,
)
    requires
        ordered(fixes, code.len() as int),
        fixes.len() > 0,
        assembled(isa, code, magic, fixes) is Ok,
        0 <= lo <= hi <= text(code, fixes).len(),
        forall|j: int|
            0 <= j < fixes.len() ==> hi <= #[trigger] slot_at(code, fixes, j) || slot_at(
                code,
                fixes,
                j,
            ) + 4 <= lo,
    ensures
        assembled(isa, code, magic, fixes)->Ok_0.0.subrange(lo, hi) == text(code, fixes).subrange(
            lo,
            hi,
        ),
{
    let moved = magic + shift(fixes, fixes.len() as int);
    let base = base_of(isa, moved) as u64;
    let padded = text(code, fixes) + padding(isa, text(code, fixes).len() as int, moved);
    lemma_laid_elsewhere(isa, base, code, fixes, padded, fixes.len() as int, lo, hi);
    assert(padded.subrange(lo, hi) =~= text(code, fixes).subrange(lo, hi));
}

/// What a relocated template keeps of the template: the bytes between the fixed
/// instructions stand before the literal loads, what follows a literal load stands
/// behind it, and the rest of the template behind the last fixed instruction, which
/// holds the instruction that reads the marker slot, follows unchanged, moved by as
/// much as the fixes lengthen the template.
pub proof fn lemma_assembled_keeps(
    isa: Isa,
    code: Seq<u8>,
    magic: usize,
    fixes: Seq<FixView>,
    k: int,
)
    requires
        ordered(fixes, code.len() as int),
        0 <= k < fixes.len(),
        assembled(isa, code, magic, fixes) is Ok,
    ensures
        ({
            let thunk = assembled(isa, code, magic, fixes)->Ok_0.0;
            let slot = slot_at(code, fixes, k);
            let n = fixes.len() as int;
            let grown = shift(fixes, n);
            &&& code.len() + grown <= thunk.len()
            &&& thunk.subrange(slot - (fixes[k].at - resumed(fixes, k)), slot) == code.subrange(
                resumed(fixes, k),
                fixes[k].at as int,
            )
            &&& thunk.subrange(slot + 4, slot + 4 + fixes[k].follow.len()) == fixes[k].follow
            &&& thunk.subrange(resumed(fixes, n) + grown, code.len() + grown) == code.subrange(
                resumed(fixes, n),
                code.len() as int,
            )
        }),
{
    let n = fixes.len() as int;
    let slot = slot_at(code, fixes, k);
    let moved = magic + shift(fixes, n);
    let padded = text(code, fixes) + padding(isa, text(code, fixes).len() as int, moved);
    lemma_laid_grows(isa, base_of(isa, moved) as u64, code, fixes, padded, n);
    lemma_text_len(code, fixes, n);
    lemma_text_parts(code, fixes, k);
    lemma_slot_bounds(code, fixes, k);
    lemma_body_grows(code, fixes, k + 1, n);
    assert forall|j: int| 0 <= j < n implies (slot <= #[trigger] slot_at(code, fixes, j)
        || slot_at(code, fixes, j) + 4 <= body(code, fixes, k).len()) && (body(
        code,
        fixes,
        k + 1,
    ).len() <= slot_at(code, fixes, j) || slot_at(code, fixes, j) + 4 <= slot + 4) && slot_at(
        code,
        fixes,
        j,
    ) + 4 <= body(code, fixes, n).len() by {
        lemma_slot_bounds(code, fixes, j);
        lemma_body_grows(code, fixes, j + 1, n);
        if j < k {
            lemma_body_grows(code, fixes, j + 1, k);
        } else if j > k {
            lemma_body_grows(code, fixes, k + 1, j);
        }
    }
    lemma_assembled_elsewhere(isa, code, magic, fixes, body(code, fixes, k).len() as int, slot);
    lemma_assembled_elsewhere(
        isa,
        code,
        magic,
        fixes,
        slot + 4,
        slot + 4 + fixes[k].follow.len(),
    );
    lemma_assembled_elsewhere(
        isa,
        code,
        magic,
        fixes,
        body(code, fixes, n).len() as int,
        text(code, fixes).len() as int,
    );
}

/// The rewritten template is as much longer than the template as the fixes lengthen
/// it.
pub proof fn lemma_text_len(code: Seq<u8>, fixes: Seq<FixView>, upto: int)
    requires
        ordered(fixes, code.len() as int),
        0 <= upto <= fixes.len(),
    ensures
        resumed(fixes, upto) <= code.len(),
        body(code, fixes, upto).len() == resumed(fixes, upto) + shift(fixes, upto),
        upto == fixes.len() ==> text(code, fixes).len() == code.len() + shift(fixes, upto),
    decreases upto,
{
    if upto > 0 {
        lemma_text_len(code, fixes, upto - 1);
        assert(fixes[upto - 1].at + fixes[upto - 1].len <= code.len());
        if upto > 1 {
            assert(fixes[upto - 2].at + fixes[upto - 2].len <= fixes[upto - 1].at);
        }
    }
}

/// In the relocated template of a template that ends after its two slots, the pool
/// follows the slots at once, in line with the marker slot: entry `k` lies two
/// pointers and `k` more behind the marker slot, which has moved by as much as the
/// fixes lengthen the template.
pub proof fn lemma_pool_follows_slots(
    isa: Isa,
    code: Seq<u8>,
    magic: usize,
    fixes: Seq<FixView>,
    k: int,
)
    requires
        ordered(fixes, code.len() as int),
        code.len() == magic + 2 * isa.pointer_size(),
        0 <= k,
    ensures
        ({
            let moved = magic + shift(fixes, fixes.len() as int);
            &&& text(code, fixes).len() == moved + 2 * isa.pointer_size()
            &&& pool_entry(isa, code, magic, fixes, k) == moved + (2 + k) * isa.pointer_size()
            &&& (pool_entry(isa, code, magic, fixes, k) - moved) % isa.pointer_size() == 0
        }),
{
    lemma_text_len(code, fixes, fixes.len() as int);
    let moved = magic + shift(fixes, fixes.len() as int);
    let len = text(code, fixes).len() as int;
    if isa.pointer_size() == 8 {
        assert((len - moved) % 8 == 0);
        assert(((2 + k) * 8) % 8 == 0);
    } else {
        assert((len - moved) % 4 == 0);
        assert(((2 + k) * 4) % 4 == 0);
    }
    assert(padding(isa, len, moved).len() == 0);
}

/// In the relocated template of a template that holds its two slots, and whose end
/// lies whole half pointers behind its marker slot, every pool entry lies behind the
/// two slots and in line with the marker slot.
pub proof fn lemma_pool_in_line(
    isa: Isa,
    code: Seq<u8>,
    magic: usize,
    fixes: Seq<FixView>,
    k: int,
)
    requires
        ordered(fixes, code.len() as int),
        magic + 2 * isa.pointer_size() <= code.len(),
        (code.len() - magic) % (isa.pointer_size() / 2) == 0,
        0 <= k,
    ensures
        ({
            let moved = magic + shift(fixes, fixes.len() as int);
            &&& moved + 2 * isa.pointer_size() <= pool_entry(isa, code, magic, fixes, k)
            &&& (pool_entry(isa, code, magic, fixes, k) - moved) % isa.pointer_size() == 0
        }),
{
    lemma_text_len(code, fixes, fixes.len() as int);
    let moved = magic + shift(fixes, fixes.len() as int);
    let len = text(code, fixes).len() as int;
    let apart = len - moved;
    assert(apart == code.len() - magic);
    if isa.pointer_size() == 8 {
        assert(apart % 4 == 0);
        assert(apart % 8 == 0 || (apart + 4) % 8 == 0);
        assert(apart % 8 != 0 ==> padding(isa, len, moved).len() == 4);
        assert(k * 8 >= 0 && (k * 8) % 8 == 0);
        assert((apart + padding(isa, len, moved).len() + k * 8) % 8 == 0);
    } else {
        assert(apart % 2 == 0);
        assert(apart % 4 == 0 || (apart + 2) % 4 == 0);
        assert(apart % 4 != 0 ==> padding(isa, len, moved).len() == 2);
        assert(k * 4 >= 0 && (k * 4) % 4 == 0);
        assert((apart + padding(isa, len, moved).len() + k * 4) % 4 == 0);
    }
}

/// The offset of the pool entry of fix `k` in a relocated template: the entries
/// follow the padded template one after the other.
pub open spec fn pool_entry(
    isa: Isa,
    code: Seq<u8>,
    magic: usize,
    fixes: Seq<FixView>,
    k: int,
) -> int {
    let moved = magic + shift(fixes, fixes.len() as int);
    text(code, fixes).len() + padding(isa, text(code, fixes).len() as int, moved).len() + k
        * isa.pointer_size()
}

/// Where a layout succeeds, every shorter layout has succeeded.
pub proof fn lemma_laid_prefix(
    isa: Isa,
    base: u64,
    code: Seq<u8>,
    fixes: Seq<FixView>,
    padded: Seq<u8>,
    upto: int,
    bound: int,
)
    requires
        0 <= upto <= bound,
        laid(isa, base, code, fixes, padded, bound) is Some,
    ensures
        laid(isa, base, code, fixes, padded, upto) is Some,
    decreases bound - upto,
{
    if upto < bound {
        lemma_laid_prefix(isa, base, code, fixes, padded, upto, bound - 1);
    }
}

/// Each step of the layout lengthens the buffer by one pointer.
pub proof fn lemma_laid_len(
    isa: Isa,
    base: u64,
    code: Seq<u8>,
    fixes: Seq<FixView>,
    padded: Seq<u8>,
    upto: int,
)
    requires
        ordered(fixes, code.len() as int),
        text(code, fixes).len() <= padded.len(),
        0 <= upto <= fixes.len(),
        laid(isa, base, code, fixes, padded, upto) is Some,
    ensures
        laid(isa, base, code, fixes, padded, upto)->0.len() == padded.len() + upto
            * isa.pointer_size(),
    decreases upto,
{
    if upto > 0 {
        lemma_laid_step(isa, base, code, fixes, padded, upto);
        lemma_laid_len(isa, base, code, fixes, padded, upto - 1);
        lemma_slots_in_order(code, fixes, upto - 1, upto - 1);
        let prev = laid(isa, base, code, fixes, padded, upto - 1)->0;
        let at = slot_at(code, fixes, upto - 1);
        let load = literal_load(isa, base, at, fixes[upto - 1].reg, prev.len() as int)->0;
        let word = le_bytes(fixes[upto - 1].target as int, isa.pointer_size() as nat);
        lemma_write_keeps(prev, at, load, word);
        assert((upto - 1) * isa.pointer_size() + isa.pointer_size() == upto
            * isa.pointer_size()) by (nonlinear_arith);
    }
}

/// The lowest address that brings an offset in line with words is a whole number of
/// words below any other.
proof fn lemma_low_base_4(moved: int, base: int)
    requires
        0 <= moved,
        0 <= base,
        (base + moved) % 4 == 0,
    ensures
        0 <= (4 - moved % 4) % 4 < 4,
        ((4 - moved % 4) % 4 + moved) % 4 == 0,
        (base - (4 - moved % 4) % 4) % 4 == 0,
{
    let rest = moved % 4;
    assert(moved == 4 * (moved / 4) + rest);
    assert(base + moved == 4 * ((base + moved) / 4));
    if rest == 0 {
    } else if rest == 1 {
    } else if rest == 2 {
    } else {
    }
}

/// The lowest address that brings an offset in line with doublewords is a whole
/// number of doublewords below any other.
proof fn lemma_low_base_8(moved: int, base: int)
    requires
        0 <= moved,
        0 <= base,
        (base + moved) % 8 == 0,
    ensures
        0 <= (8 - moved % 8) % 8 < 8,
        ((8 - moved % 8) % 8 + moved) % 8 == 0,
        (base - (8 - moved % 8) % 8) % 8 == 0,
        (base - (8 - moved % 8) % 8) % 4 == 0,
{
    let rest = moved % 8;
    let low = (8 - rest) % 8;
    assert(moved == 8 * (moved / 8) + rest);
    assert(base + moved == 8 * ((base + moved) / 8));
    assert(low == (if rest == 0 {
        0
    } else {
        8 - rest
    }));
    assert(base - low == 8 * ((base + moved) / 8 - moved / 8 - (if rest == 0 {
        0int
    } else {
        1int
    })));
}

/// The lowest address at which a buffer can stand is a whole number of pointers
/// below any other.
pub proof fn lemma_base_of(isa: Isa, moved: int, base: int)
    requires
        0 <= moved,
        stands_at(isa, base, moved),
    ensures
        0 <= base_of(isa, moved) < isa.pointer_size(),
        stands_at(isa, base_of(isa, moved), moved),
        (base - base_of(isa, moved)) % isa.pointer_size() == 0,
        (base - base_of(isa, moved)) % 4 == 0,
{
    match isa {
        Isa::AArch64 => {
            lemma_low_base_8(moved, base);
        },
        _ => {
            lemma_low_base_4(moved, base);
        },
    }
}

/// On AArch64 the literal load for a slot, where there is one, is four bytes that are
/// read as a load into the register that was asked for, from the slot, wherever the
/// buffer stands.
pub proof fn lemma_literal_reaches_aarch64(low: u64, at: int, reg: u32, slot: int, base: u64)
    requires
        0 <= at <= usize::MAX,
        0 <= slot <= usize::MAX,
    ensures
        literal_load(Isa::AArch64, low, at, reg, slot) matches Some(bytes) ==> bytes.len() == 4
            && ({
            let load = crate::safe_jit::aarch64::encoding::LdrImm(le32(bytes, 0) as u32);
            load@.reg == reg && load.target(wrap64(base + at) as u64) == wrap64(base + slot)
        }),
{
    let here0 = wrap64(low + at) as u64;
    let there0 = wrap64(low + slot) as u64;
    let here = wrap64(base + at) as u64;
    let there = wrap64(base + slot) as u64;
    let found = crate::safe_jit::aarch64::encoding::LdrImm::encoded_at(
        here0,
        LdrImmOpc::Load64,
        reg,
        there0,
    );
    if found is Some {
        let word = found->0;
        crate::safe_jit::aarch64::encoding::LdrImm::lemma_encoded_at(
            here0,
            LdrImmOpc::Load64,
            reg,
            there0,
        );
        lemma_le32_of_le_bytes(word);
        lemma_apart_64(low, base, at, slot);
        lemma_reach_64(here0, there0, here, there);
    }
}

/// On ARM the literal load for a slot, where there is one, is four bytes that are
/// read as a load into the register that was asked for, from the slot, wherever the
/// buffer stands a whole number of words from where it was encoded for.
pub proof fn lemma_literal_reaches_arm(low: u32, at: int, reg: u32, slot: int, base: u32)
    requires
        0 <= at <= usize::MAX,
        0 <= slot <= usize::MAX,
        (base - low) % 4 == 0,
    ensures
        literal_load(Isa::Arm, low as u64, at, reg, slot) matches Some(bytes) ==> bytes.len()
            == 4 && ({
            let load = crate::safe_jit::arm_util::encoding_arm::LdrImm(le32(bytes, 0) as u32);
            load@.rt == reg && load.target(address32(base, at) as u32) == address32(base, slot)
        }),
{
    let here0 = address32(low, at) as u32;
    let there0 = address32(low, slot) as u32;
    let here = address32(base, at) as u32;
    let there = address32(base, slot) as u32;
    let found = crate::safe_jit::arm_util::encoding_arm::LdrImm::encoded_lit(here0, reg, there0);
    if found is Some {
        let word = found->0;
        crate::safe_jit::arm_util::encoding_arm::LdrImm::lemma_encoded_lit(here0, reg, there0);
        lemma_le32_of_le_bytes(word);
        lemma_apart_32(low, base, at, slot);
        lemma_reach_32(8, here0, there0, here, there);
    }
}

/// On Thumb the literal load for a slot, where there is one, is four bytes that are
/// read as a load into the register that was asked for, from the slot, wherever the
/// buffer stands a whole number of words from where it was encoded for.
pub proof fn lemma_literal_reaches_thumb(low: u32, at: int, reg: u32, slot: int, base: u32)
    requires
        0 <= at <= usize::MAX,
        0 <= slot <= usize::MAX,
        (base - low) % 4 == 0,
    ensures
        literal_load(Isa::Thumb, low as u64, at, reg, slot) matches Some(bytes) ==> bytes.len()
            == 4 && ({
            let load = crate::safe_jit::arm_util::encoding_thumb::LdrImm(le32(bytes, 0) as u32);
            load@.rt == reg && load.target(address32(base, at) as u32) == address32(base, slot)
        }),
{
    let here0 = address32(low, at) as u32;
    let there0 = address32(low, slot) as u32;
    let here = address32(base, at) as u32;
    let there = address32(base, slot) as u32;
    let found = crate::safe_jit::arm_util::encoding_thumb::LdrImm::encoded_lit(
        here0,
        reg,
        there0,
    );
    if found is Some {
        let word = found->0;
        crate::safe_jit::arm_util::encoding_thumb::LdrImm::lemma_encoded_lit(here0, reg, there0);
        lemma_le32_of_le_bytes(word);
        lemma_apart_32(low, base, at, slot);
        lemma_reach_32(4, here0, there0, here, there);
    }
}

/// The literal load for a slot, where there is one, is four bytes that are read as a
/// load into the register that was asked for, from the slot, wherever the buffer
/// stands with its marker slot, `moved` bytes into it, in line with pointers.
pub proof fn lemma_literal_reaches(
    isa: Isa,
    moved: int,
    at: int,
    reg: u32,
    slot: int,
    base: u64,
)
    requires
        0 <= moved,
        0 <= at <= usize::MAX,
        0 <= slot <= usize::MAX,
        stands_at(isa, base as int, moved),
        isa != Isa::AArch64 ==> base <= u32::MAX,
    ensures
        literal_load(isa, base_of(isa, moved) as u64, at, reg, slot) matches Some(bytes)
            ==> bytes.len() == 4 && match isa {
            Isa::AArch64 => {
                let load = crate::safe_jit::aarch64::encoding::LdrImm(le32(bytes, 0) as u32);
                load@.reg == reg && load.target(wrap64(base + at) as u64) == wrap64(base + slot)
            },
            Isa::Arm => {
                let load = crate::safe_jit::arm_util::encoding_arm::LdrImm(le32(bytes, 0) as u32);
                load@.rt == reg && load.target(address32(base as u32, at) as u32) == address32(
                    base as u32,
                    slot,
                )
            },
            Isa::Thumb => {
                let load = crate::safe_jit::arm_util::encoding_thumb::LdrImm(
                    le32(bytes, 0) as u32,
                );
                load@.rt == reg && load.target(address32(base as u32, at) as u32) == address32(
                    base as u32,
                    slot,
                )
            },
        },
{
    lemma_base_of(isa, moved, base as int);
    let low = base_of(isa, moved);
    match isa {
        Isa::AArch64 => {
            lemma_literal_reaches_aarch64(low as u64, at, reg, slot, base);
        },
        Isa::Arm => {
            lemma_literal_reaches_arm(low as u32, at, reg, slot, base as u32);
        },
        Isa::Thumb => {
            lemma_literal_reaches_thumb(low as u32, at, reg, slot, base as u32);
        },
    }
}

/// Rewrites the fixed instructions into `cow`, placeholders in the place of the
/// literal loads. Gives the offset of each placeholder.
fn rewrite(cow: &mut CowBuffer<'_>, fixes: &Vec<Fix>) -> (slots: Vec<usize>)
    requires
        old(cow).wf(),
        old(cow).written().len() == 0,
        old(cow).copied() == 0,
        ordered(views(fixes@), old(cow).orig().len() as int),
    ensures
        final(cow).wf(),
        final(cow).orig() == old(cow).orig(),
        final(cow).written() == body(old(cow).orig(), views(fixes@), fixes@.len() as int),
        final(cow).copied() == resumed(views(fixes@), fixes@.len() as int),
        slots@.len() == fixes@.len(),
        forall|k: int|
            0 <= k < slots@.len() ==> #[trigger] slots@[k] == slot_at(
                old(cow).orig(),
                views(fixes@),
                k,
            ) && slots@[k] + 4 <= final(cow).written().len(),
{
    let ghost code = cow.orig();
    let mut slots: Vec<usize> = Vec::new();
    let zeros: [u8; 4] = [0, 0, 0, 0];
    let mut k: usize = 0;
    while k < fixes.len()
        invariant
            k <= fixes@.len(),
            zeros@ == placeholder(),
            cow.wf(),
            cow.orig() == code,
            ordered(views(fixes@), code.len() as int),
            cow.written() == body(code, views(fixes@), k as int),
            cow.copied() == resumed(views(fixes@), k as int),
            slots@.len() == k,
            forall|j: int|
                0 <= j < k ==> #[trigger] slots@[j] == slot_at(code, views(fixes@), j)
                    && slots@[j] + 4 <= cow.written().len(),
        decreases fixes@.len() - k,
    {
        let fix = &fixes[k];
        proof {
            let all = views(fixes@);
            assert(all[k as int] == fixes@[k as int]@);
            assert(all[k as int].at + all[k as int].len <= code.len());
            if k > 0 {
                assert(all[k - 1].at + all[k - 1].len <= all[k as int].at);
            }
        }
        let ghost before = cow.written();
        let ghost copied = cow.copied() as int;
        let slot = cow.append(fix.at, zeros.as_slice());
        cow.append(fix.at, fix.follow.as_slice());
        cow.ignore(fix.at, fix.len);
        proof {
            assert(code.subrange(fix.at as int, fix.at as int) =~= Seq::<u8>::empty());
            assert(cow.written() =~= before + code.subrange(copied, fix.at as int) + placeholder()
                + fix.follow@);
            assert(views(fixes@)[k as int] == fixes@[k as int]@);
            assert(cow.written() == body(code, views(fixes@), k + 1));
        }
        slots.push(slot);
        k += 1;
    }
    slots
}

/// The literal load, placed `at` bytes into a buffer loaded at `base`, of the pointer
/// `slot` bytes into the buffer, into `reg`.
fn literal(isa: Isa, base: u64, at: usize, reg: u32, slot: usize) -> (r: Option<[u8; 4]>)
    ensures
        r matches Some(bytes) ==> literal_load(isa, base, at as int, reg, slot as int) == Some(
            bytes@,
        ),
        r is None ==> literal_load(isa, base, at as int, reg, slot as int) is None,
{
    match isa {
        Isa::AArch64 => {
            match crate::safe_jit::aarch64::encoding::LdrImm::new_at(
                advance64(base, at),
                LdrImmOpc::Load64,
                reg,
                advance64(base, slot),
            ) {
                Ok(ins) => Some(le32_bytes(ins.to_raw())),
                Err(_) => None,
            }
        },
        Isa::Arm => {
            let low = low32(base);
            match crate::safe_jit::arm_util::encoding_arm::LdrImm::new_lit(
                advance32(low, at),
                reg,
                advance32(low, slot),
            ) {
                Ok(ins) => Some(ins.bytes()),
                Err(_) => None,
            }
        },
        Isa::Thumb => {
            let low = low32(base);
            match crate::safe_jit::arm_util::encoding_thumb::LdrImm::new_lit(
                advance32(low, at),
                reg,
                advance32(low, slot),
            ) {
                Ok(ins) => Some(ins.bytes()),
                Err(_) => None,
            }
        },
    }
}

/// The low 32 bits of an address.
fn low32(address: u64) -> (r: u32)
    ensures
        r == address as u32,
{
    let low = (address % 0x1_0000_0000) as u32;
    assert(low == address as u32) by (bit_vector)
        requires
            low == (address % 0x1_0000_0000) as u32,
    ;
    low
}

/// Whether a pool that begins `len` bytes into the buffer is out of line with the
/// marker slot at `moved`.
fn misaligned(isa: Isa, len: usize, moved: usize) -> (r: bool)
    ensures
        r == ((len - moved) % isa.pointer_size() != 0),
{
    match isa {
        Isa::AArch64 => if moved <= len {
            (len - moved) % 8 != 0
        } else {
            (moved - len) % 8 != 0
        },
        _ => if moved <= len {
            (len - moved) % 4 != 0
        } else {
            (moved - len) % 4 != 0
        },
    }
}

/// Appends the padding that brings the pool in line with the marker slot at `moved`.
fn pad(isa: Isa, buf: &mut Vec<u8>, moved: usize)
    ensures
        final(buf)@ == old(buf)@ + padding(isa, old(buf)@.len() as int, moved as int),
{
    if misaligned(isa, buf.len(), moved) {
        buf.push(0);
        buf.push(0);
        match isa {
            Isa::AArch64 => {
                buf.push(0);
                buf.push(0);
            },
            _ => {},
        }
    }
    assert(buf@ =~= old(buf)@ + padding(isa, old(buf)@.len() as int, moved as int));
}

/// Pads `new_bytes`, appends the pool to it and turns the placeholders into literal
/// loads. Tells whether every load reaches its entry.
fn finish(
    isa: Isa,
    base: u64,
    new_bytes: &mut Vec<u8>,
    fixes: &Vec<Fix>,
    slots: &Vec<usize>,
    moved: usize,
    Ghost(code): Ghost<Seq<u8>>,
) -> (r: bool)
    requires
        slots@.len() == fixes@.len(),
        forall|k: int|
            0 <= k < slots@.len() ==> #[trigger] slots@[k] == slot_at(code, views(fixes@), k)
                && slots@[k] + 4 <= old(new_bytes)@.len(),
    ensures
        r ==> laid(
            isa,
            base,
            code,
            views(fixes@),
            old(new_bytes)@ + padding(isa, old(new_bytes)@.len() as int, moved as int),
            fixes@.len() as int,
        ) == Some(final(new_bytes)@),
        !r ==> laid(
            isa,
            base,
            code,
            views(fixes@),
            old(new_bytes)@ + padding(isa, old(new_bytes)@.len() as int, moved as int),
            fixes@.len() as int,
        ) is None,
{
    pad(isa, new_bytes, moved);
    let ghost padded = new_bytes@;
    let mut k: usize = 0;
    while k < fixes.len()
        invariant
            k <= fixes@.len(),
            slots@.len() == fixes@.len(),
            padded.len() <= new_bytes@.len(),
            padded == old(new_bytes)@ + padding(
                isa,
                old(new_bytes)@.len() as int,
                moved as int,
            ),
            forall|j: int|
                0 <= j < slots@.len() ==> #[trigger] slots@[j] == slot_at(code, views(fixes@), j)
                    && slots@[j] + 4 <= padded.len(),
            laid(isa, base, code, views(fixes@), padded, k as int) == Some(new_bytes@),
        decreases fixes@.len() - k,
    {
        let ghost prev = new_bytes@;
        let fix = &fixes[k];
        let slot = slots[k];
        assert(slot == slot_at(code, views(fixes@), k as int));
        assert(views(fixes@)[k as int] == fixes@[k as int]@);
        if !lay_one(isa, base, new_bytes, slot, fix.reg, fix.target) {
            proof {
                assert(laid(isa, base, code, views(fixes@), padded, k + 1) is None);
                lemma_laid_fails_on(
                    isa,
                    base,
                    code,
                    views(fixes@),
                    padded,
                    k as int + 1,
                    fixes@.len() as int,
                );
            }
            return false;
        }
        assert(laid(isa, base, code, views(fixes@), padded, k + 1) == Some(new_bytes@));
        k += 1;
    }
    true
}

/// Appends the pool entry for `target` to `buf` and puts the literal load of it into
/// `reg` at `slot`. Tells whether the load reaches the entry; where it does not, `buf`
/// stays as it was.
fn lay_one(isa: Isa, base: u64, buf: &mut Vec<u8>, slot: usize, reg: u32, target: u64) -> (r: bool)
    requires
        slot + 4 <= old(buf)@.len(),
    ensures
        r ==> literal_load(isa, base, slot as int, reg, old(buf)@.len() as int) is Some
            && final(buf)@ == write4(
            old(buf)@,
            slot as int,
            literal_load(isa, base, slot as int, reg, old(buf)@.len() as int)->0,
        ) + le_bytes(target as int, isa.pointer_size() as nat),
        !r ==> literal_load(isa, base, slot as int, reg, old(buf)@.len() as int) is None
            && final(buf)@ == old(buf)@,
{
    let load = match literal(isa, base, slot, reg, buf.len()) {
        Some(bytes) => bytes,
        None => {
            return false;
        },
    };
    put4(buf, slot, &load);
    let entry = le64_bytes(target);
    match isa {
        Isa::AArch64 => {
            buf.extend_from_slice(entry.as_slice());
        },
        _ => {
            let low = slice_subrange(entry.as_slice(), 0, 4);
            assert(low@ =~= le_bytes(target as int, 4));
            buf.extend_from_slice(low);
        },
    }
    true
}

/// Rewrites the instructions of `fixes` in `code` and lays out the literal pool.
pub fn assemble<'a>(isa: Isa, code: &'a [u8], magic: usize, fixes: &Vec<Fix>) -> (r: Result<
    RelocThunk<'a>,
    JitError,
>)
    requires
        ordered(views(fixes@), code@.len() as int),
    ensures
        match r {
            Ok(reloc) => assembled(isa, code@, magic, views(fixes@)) == Ok::<
                (Seq<u8>, int),
                JitError,
            >((reloc.thunk@, reloc.magic_offset as int)),
            Err(e) => assembled(isa, code@, magic, views(fixes@)) == Err::<
                (Seq<u8>, int),
                JitError,
            >(e),
        },
        r matches Ok(reloc) ==> (reloc.thunk is Borrowed <==> fixes@.len() == 0),
{
    let mut cow = CowBuffer::new(code);
    if fixes.len() == 0 {
        return Ok(RelocThunk { thunk: cow.into_bytes(), magic_offset: magic });
    }
    let moved = match moved_magic(magic, fixes, Ghost(code@.len() as int)) {
        Some(moved) => moved,
        None => {
            return Err(JitError::EncodingError);
        },
    };
    let slots = rewrite(&mut cow, fixes);
    proof {
        let all = views(fixes@);
        assert(all[all.len() - 1].at + all[all.len() - 1].len <= code@.len());
    }
    cow.copy_up_to(code.len());
    assert(cow.written() == text(code@, views(fixes@)));
    let new_bytes = cow.new_bytes_mut();
    let base: u64 = match isa {
        Isa::AArch64 => ((8 - moved % 8) % 8) as u64,
        _ => ((4 - moved % 4) % 4) as u64,
    };
    let reached = finish(isa, base, new_bytes, fixes, &slots, moved, Ghost(code@));
    if !reached {
        return Err(JitError::EncodingError);
    }
    proof {
        assert(cow.written().len() >= 4);
        assert(cow.orig().subrange(cow.copied() as int, cow.orig().len() as int) =~= Seq::<
            u8,
        >::empty());
        assert(cow.bytes() =~= cow.written());
    }
    Ok(RelocThunk { thunk: cow.into_bytes(), magic_offset: moved })
}

/// The offset of the marker slot after the fixes, where it is an offset at all.
fn moved_magic(magic: usize, fixes: &Vec<Fix>, Ghost(end): Ghost<int>) -> (r: Option<usize>)
    requires
        ordered(views(fixes@), end),
    ensures
        r matches Some(moved) ==> moved == magic + shift(views(fixes@), fixes@.len() as int),
        r is None ==> magic + shift(views(fixes@), fixes@.len() as int) > usize::MAX,
{
    let mut moved: usize = magic;
    let mut k: usize = 0;
    while k < fixes.len()
        invariant
            k <= fixes@.len(),
            ordered(views(fixes@), end),
            moved == magic + shift(views(fixes@), k as int),
        decreases fixes@.len() - k,
    {
        let fix = &fixes[k];
        proof {
            let all = views(fixes@);
            lemma_shift_grows(all, end, k as int + 1, fixes@.len() as int);
            assert(all[k as int] == fixes@[k as int]@);
            assert(all[k as int].len <= 4 + all[k as int].follow.len());
        }
        let grown: u128 = 4 + fix.follow.len() as u128 - fix.len as u128;
        if grown > (usize::MAX - moved) as u128 {
            return None;
        }
        moved = moved + grown as usize;
        k += 1;
    }
    Some(moved)
}

} // verus!
