//! The marker that each instruction set leaves in a template, and the steps that
//! turn a template and a payload pointer into an adapter in executable memory.
//!
//! A template holds, after its prefix, a slot with a fixed bit pattern: the marker.
//! The adapter is a copy of the relocated template in which the payload pointer
//! stands in the slot, followed, but on 32-bit x86, by the address at which the
//! template goes on after the slot.

use vstd::prelude::*;
use vstd::slice::slice_subrange;
use crate::jit_alloc::{JitAllocError, ProtectJitAccess};
use crate::safe_jit::{relocated, try_reloc_thunk_template, Arch, JitError};
use crate::safe_jit::util::{le64_bytes, le_bytes};

verus! {

/// The marker of `arch`, as it lies in memory. On x86 it is a run of `LOCK`
/// prefixes, which no instruction begins with: eight of them on x86-64, where the
/// marker is the slot for the payload; fourteen and a `PUSH EAX` on 32-bit x86, where
/// the marker lies behind the template and is no slot. On AArch64 and ARM it is an
/// undefined instruction, repeated to the size of a pointer.
pub open spec fn magic_bytes(arch: Arch) -> Seq<u8> {
    match arch {
        Arch::X86 => seq![
            0xF0u8, 0xF0u8, 0xF0u8, 0xF0u8, 0xF0u8, 0xF0u8, 0xF0u8, 0xF0u8, 0xF0u8, 0xF0u8,
            0xF0u8, 0xF0u8, 0xF0u8, 0xF0u8, 0xFFu8, 0xF0u8,
        ],
        Arch::X86_64 => seq![0xF0u8, 0xF0u8, 0xF0u8, 0xF0u8, 0xF0u8, 0xF0u8, 0xF0u8, 0xF0u8],
        Arch::AArch64 => seq![0xADu8, 0xDEu8, 0x00u8, 0x00u8, 0xADu8, 0xDEu8, 0x00u8, 0x00u8],
        Arch::Arm => seq![0xFDu8, 0xEAu8, 0xFDu8, 0xE7u8],
        Arch::Thumb => seq![0x2Au8, 0xDEu8, 0x2Au8, 0xDEu8],
    }
}

/// The alignment of the marker in bytes.
pub open spec fn magic_align(arch: Arch) -> int {
    match arch {
        Arch::X86_64 | Arch::AArch64 => 8,
        _ => 4,
    }
}

/// The size of a pointer in bytes.
pub open spec fn pointer_size(arch: Arch) -> int {
    match arch {
        Arch::X86_64 | Arch::AArch64 => 8,
        _ => 4,
    }
}

/// Where the template ends, counted from the marker: after the marker and the slot
/// for the return address, or, on 32-bit x86, four bytes before the marker.
pub open spec fn thunk_extra_size(arch: Arch) -> int {
    match arch {
        Arch::X86 => -4,
        Arch::X86_64 => 16,
        Arch::AArch64 => 16,
        _ => 8,
    }
}

/// Where the payload pointer goes, counted from the marker: into the marker's own
/// slot, or, on 32-bit x86, into the immediate of the instruction that loads it.
pub open spec fn closure_addr_offset(arch: Arch) -> int {
    match arch {
        Arch::X86 => -15,
        _ => 0,
    }
}

/// Where the template goes on after the slots, counted from the marker, where the
/// adapter has to be told.
pub open spec fn thunk_return_offset(arch: Arch) -> Option<int> {
    match arch {
        Arch::X86 => None,
        Arch::X86_64 => Some(16),
        Arch::AArch64 => Some(16),
        _ => Some(8),
    }
}

/// The marker of `arch`.
pub fn magic(arch: Arch) -> (r: Vec<u8>)
    ensures
        r@ == magic_bytes(arch),
{
    let mut out: Vec<u8> = Vec::new();
    match arch {
        Arch::X86 => {
            let run: [u8; 16] = [
                0xF0, 0xF0, 0xF0, 0xF0, 0xF0, 0xF0, 0xF0, 0xF0, 0xF0, 0xF0, 0xF0, 0xF0, 0xF0,
                0xF0, 0xFF, 0xF0,
            ];
            out.extend_from_slice(run.as_slice());
        },
        Arch::X86_64 => {
            let word: [u8; 8] = [0xF0, 0xF0, 0xF0, 0xF0, 0xF0, 0xF0, 0xF0, 0xF0];
            out.extend_from_slice(word.as_slice());
        },
        Arch::AArch64 => {
            let word: [u8; 8] = [0xAD, 0xDE, 0x00, 0x00, 0xAD, 0xDE, 0x00, 0x00];
            out.extend_from_slice(word.as_slice());
        },
        Arch::Arm => {
            let word: [u8; 4] = [0xFD, 0xEA, 0xFD, 0xE7];
            out.extend_from_slice(word.as_slice());
        },
        Arch::Thumb => {
            let word: [u8; 4] = [0x2A, 0xDE, 0x2A, 0xDE];
            out.extend_from_slice(word.as_slice());
        },
    }
    assert(out@ =~= magic_bytes(arch));
    out
}

/// The alignment of the marker of `arch` in bytes.
pub fn align(arch: Arch) -> (r: usize)
    ensures
        r == magic_align(arch),
{
    match arch {
        Arch::X86_64 | Arch::AArch64 => 8,
        _ => 4,
    }
}

/// The size of a pointer of `arch` in bytes.
pub fn pointer_bytes(arch: Arch) -> (r: usize)
    ensures
        r == pointer_size(arch),
{
    match arch {
        Arch::X86_64 | Arch::AArch64 => 8,
        _ => 4,
    }
}

/// The address of the code that a template pointer points to: the pointer itself,
/// but for Thumb, where the lowest bit of a pointer to code is a tag.
pub open spec fn untagged(arch: Arch, ptr: usize) -> int {
    if arch == Arch::Thumb {
        ptr - ptr % 2
    } else {
        ptr as int
    }
}

/// The pointer to the code at `addr`, with the tag that Thumb code carries.
pub open spec fn tagged(arch: Arch, addr: int) -> int {
    if arch == Arch::Thumb && addr % 2 == 0 {
        addr + 1
    } else {
        addr
    }
}

/// The address of the code that `ptr` points to.
pub fn code_address(arch: Arch, ptr: usize) -> (r: usize)
    ensures
        r == untagged(arch, ptr),
{
    match arch {
        Arch::Thumb => ptr - ptr % 2,
        _ => ptr,
    }
}

/// How far the next multiple of `align` lies above `addr`.
pub open spec fn gap(addr: int, align: int) -> int {
    (align - addr % align) % align
}

/// The first offset from `addr` at which the marker of `arch` can lie.
pub fn first_offset(arch: Arch, addr: usize) -> (r: usize)
    ensures
        r == gap(addr as int, magic_align(arch)),
        r < magic_align(arch),
        aligned(arch, addr, r as int),
{
    match arch {
        Arch::X86_64 | Arch::AArch64 => (8 - addr % 8) % 8,
        _ => (4 - addr % 4) % 4,
    }
}

/// Whether `chunk` is the marker of `arch`.
pub fn is_magic(arch: Arch, chunk: &[u8]) -> (r: bool)
    ensures
        r == (chunk@ == magic_bytes(arch)),
{
    let pattern = magic(arch);
    if chunk.len() != pattern.len() {
        return false;
    }
    let mut i: usize = 0;
    while i < chunk.len()
        invariant
            i <= chunk@.len(),
            chunk@.len() == pattern@.len(),
            pattern@ == magic_bytes(arch),
            forall|j: int| 0 <= j < i ==> chunk@[j] == pattern@[j],
        decreases chunk@.len() - i,
    {
        if chunk[i] != pattern[i] {
            return false;
        }
        i += 1;
    }
    assert(chunk@ =~= pattern@);
    true
}

/// Whether the marker of `arch` lies at `off` in `memory`.
pub open spec fn magic_at(arch: Arch, memory: Seq<u8>, off: int) -> bool {
    0 <= off && off + magic_bytes(arch).len() <= memory.len() && memory.subrange(
        off,
        off + magic_bytes(arch).len(),
    ) == magic_bytes(arch)
}

/// Whether the byte `off` bytes above `addr` is aligned as the marker of `arch` is.
pub open spec fn aligned(arch: Arch, addr: usize, off: int) -> bool {
    0 <= off && (addr + off) % magic_align(arch) == 0
}

/// What a look at one place tells the search for the marker.
#[derive(Clone, Copy, Debug, PartialEq, Eq, Structural)]
pub enum Probe {
    /// The marker lies at this offset.
    Found(usize),
    /// The marker does not lie here: the next place to look at is this offset.
    Next(usize),
    /// The marker does not lie here, and no higher offset is an offset at all.
    End,
}

/// What the bytes `chunk`, read at `offset`, tell the search: the marker is found
/// where they are the marker, and else the search goes on one alignment higher.
pub open spec fn probed(arch: Arch, offset: usize, chunk: Seq<u8>) -> Probe {
    if chunk == magic_bytes(arch) {
        Probe::Found(offset)
    } else if offset + magic_align(arch) <= usize::MAX {
        Probe::Next((offset + magic_align(arch)) as usize)
    } else {
        Probe::End
    }
}

/// Looks at the bytes `chunk`, read at `offset`. The search begins at `first_offset`
/// and reads as many bytes as the marker has at each offset that it is told.
pub fn probe(arch: Arch, offset: usize, chunk: &[u8]) -> (r: Probe)
    ensures
        r == probed(arch, offset, chunk@),
{
    if is_magic(arch, chunk) {
        Probe::Found(offset)
    } else {
        match offset.checked_add(align(arch)) {
            Some(next) => Probe::Next(next),
            None => Probe::End,
        }
    }
}

/// What the search by probes finds in `memory` from `offset` on: it ends where the
/// marker is found, or where `memory` has no room left for it.
pub open spec fn searched(arch: Arch, memory: Seq<u8>, offset: usize) -> Option<usize>
    decreases memory.len() - offset,
{
    if offset + magic_bytes(arch).len() > memory.len() {
        None
    } else {
        match probed(
            arch,
            offset,
            memory.subrange(offset as int, offset + magic_bytes(arch).len()),
        ) {
            Probe::Found(at) => Some(at),
            Probe::Next(next) => if next > offset {
                searched(arch, memory, next)
            } else {
                None
            },
            Probe::End => None,
        }
    }
}

/// The offset of the marker in `memory`, which begins at the address `addr`: the
/// lowest aligned offset at which the marker lies. It is what the search by probes
/// from the first aligned offset finds.
pub fn find_magic(arch: Arch, memory: &[u8], addr: usize) -> (r: Option<usize>)
    ensures
        r == searched(arch, memory@, gap(addr as int, magic_align(arch)) as usize),
        r matches Some(off) ==> aligned(arch, addr, off as int) && magic_at(
            arch,
            memory@,
            off as int,
        ) && forall|lower: int|
            0 <= lower < off && aligned(arch, addr, lower) ==> !magic_at(arch, memory@, lower),
        r is None ==> forall|at: int| aligned(arch, addr, at) ==> !magic_at(arch, memory@, at),
{
    let step = align(arch);
    let size = magic(arch).len();
    let first = first_offset(arch, addr);
    let mut off = first;
    while off <= memory.len() && size <= memory.len() - off
        invariant
            step == magic_align(arch),
            size == magic_bytes(arch).len(),
            first == gap(addr as int, magic_align(arch)),
            aligned(arch, addr, off as int),
            searched(arch, memory@, first) == searched(arch, memory@, off),
            forall|lower: int|
                0 <= lower < off && aligned(arch, addr, lower) ==> !magic_at(
                    arch,
                    memory@,
                    lower,
                ),
        decreases memory@.len() - off,
    {
        let found = probe(arch, off, slice_subrange(memory, off, off + size));
        proof {
            lemma_probe_moves_on(arch, memory@, addr, off);
        }
        match found {
            Probe::Found(at) => {
                return Some(at);
            },
            Probe::Next(next) => {
                off = next;
            },
            Probe::End => {
                return None;
            },
        }
    }
    None
}

/// A probe at an aligned offset settles every offset up to the next aligned one: the
/// marker lies at the offset or it does not, and no offset in between is aligned.
pub proof fn lemma_probe_moves_on(arch: Arch, memory: Seq<u8>, addr: usize, off: usize)
    requires
        aligned(arch, addr, off as int),
        off + magic_bytes(arch).len() <= memory.len(),
    ensures
        probed(
            arch,
            off,
            memory.subrange(off as int, off + magic_bytes(arch).len()),
        ) is Found <==> magic_at(arch, memory, off as int),
        aligned(arch, addr, off + magic_align(arch)),
        forall|between: int|
            off < between < off + magic_align(arch) ==> !aligned(arch, addr, between),
{
    assert forall|between: int| off < between < off + magic_align(arch) implies !aligned(
        arch,
        addr,
        between,
    ) by {
        if magic_align(arch) == 8 {
            assert((addr + between) % 8 != 0);
        } else {
            assert((addr + between) % 4 != 0);
        }
    }
}

/// The length of a template whose marker lies at `magic_offset`.
pub fn template_size(arch: Arch, magic_offset: usize) -> (r: Option<usize>)
    ensures
        r matches Some(size) ==> size == magic_offset + thunk_extra_size(arch),
        r is None ==> !(0 <= magic_offset + thunk_extra_size(arch) <= usize::MAX),
{
    match arch {
        Arch::X86 => if magic_offset >= 4 {
            Some(magic_offset - 4)
        } else {
            None
        },
        Arch::X86_64 | Arch::AArch64 => magic_offset.checked_add(16),
        _ => magic_offset.checked_add(8),
    }
}

/// An adapter: the pointer to call it through, and the execute view of the region
/// that it owns, where it owns one.
#[derive(Debug, PartialEq, Eq, Structural)]
pub struct AllocatedThunk {
    /// The execute view of the region that the adapter owns, where it owns one.
    pub alloc_base: Option<usize>,
    /// The pointer to call the adapter through.
    pub thunk: usize,
}

impl AllocatedThunk {
    /// Begins the making of the adapter of a payload of `closure_size` bytes from the
    /// template at `template_ptr`. A payload without size needs none: the template
    /// itself is the adapter, nothing is allocated, and nothing is asked of an
    /// allocator. For any other the marker is to be found first.
    pub fn new(arch: Arch, template_ptr: usize, closure_size: usize) -> (r: Begin)
        ensures
            closure_size == 0 ==> r == Begin::InPlace(
                AllocatedThunk { alloc_base: None, thunk: template_ptr },
            ),
            closure_size != 0 ==> r == (Begin::Scan {
                addr: untagged(arch, template_ptr) as usize,
                offset: gap(untagged(arch, template_ptr), magic_align(arch)) as usize,
            }),
    {
        if closure_size == 0 {
            return Begin::InPlace(AllocatedThunk::borrowed(template_ptr));
        }
        let addr = code_address(arch, template_ptr);
        Begin::Scan { addr, offset: first_offset(arch, addr) }
    }

    /// The adapter that is the template itself, and owns nothing.
    pub fn borrowed(template_ptr: usize) -> (r: Self)
        ensures
            r == (AllocatedThunk { alloc_base: None, thunk: template_ptr }),
    {
        AllocatedThunk { alloc_base: None, thunk: template_ptr }
    }

    /// The adapter that is called through `thunk` and owns the region whose execute
    /// view is `alloc_base`.
    pub fn owning(alloc_base: usize, thunk: usize) -> (r: Self)
        ensures
            r == (AllocatedThunk { alloc_base: Some(alloc_base), thunk }),
    {
        AllocatedThunk { alloc_base: Some(alloc_base), thunk }
    }

    /// The pointer to call the adapter through.
    pub fn thunk_ptr(&self) -> (r: usize)
        ensures
            r == self.thunk,
    {
        self.thunk
    }

    /// Gives up the adapter. What is returned is the execute view of the region to
    /// release, where the adapter owned one.
    pub fn into_release(self) -> (r: Option<usize>)
        ensures
            r == self.alloc_base,
    {
        self.alloc_base
    }
}

/// What the materializer is told first.
pub enum Begin {
    /// The payload has no size: the template itself is the adapter, and there is
    /// nothing to allocate.
    InPlace(AllocatedThunk),
    /// Find the marker: read memory from `addr`, at `offset` and then at every
    /// further multiple of the marker's alignment, until the marker lies there.
    Scan { addr: usize, offset: usize },
}

/// `buf` with the bytes from `at` replaced by `bytes`.
pub open spec fn overwritten(buf: Seq<u8>, at: int, bytes: Seq<u8>) -> Seq<u8> {
    buf.subrange(0, at) + bytes + buf.subrange(at + bytes.len(), buf.len() as int)
}

/// Puts `bytes` into `buf` from `at`.
fn overwrite(buf: &mut Vec<u8>, at: usize, bytes: &[u8])
    requires
        at + bytes@.len() <= old(buf)@.len(),
    ensures
        final(buf)@ == overwritten(old(buf)@, at as int, bytes@),
{
    let len = buf.len();
    let mut i: usize = 0;
    while i < bytes.len()
        invariant
            i <= bytes@.len(),
            len == buf@.len(),
            at + bytes@.len() <= len,
            buf@.len() == old(buf)@.len(),
            forall|j: int| 0 <= j < at ==> buf@[j] == old(buf)@[j],
            forall|j: int| at <= j < at + i ==> buf@[j] == bytes@[j - at],
            forall|j: int| at + i <= j < len ==> buf@[j] == old(buf)@[j],
        decreases bytes@.len() - i,
    {
        buf.set(at + i, bytes[i]);
        i += 1;
    }
    assert(buf@ =~= overwritten(old(buf)@, at as int, bytes@));
}

/// The `size` low bytes of `x`, least significant first, for a size of 4 or 8.
fn pointer_le(x: usize, size: usize) -> (r: Vec<u8>)
    requires
        size == 4 || size == 8,
    ensures
        r@ == le_bytes(x as int, size as nat),
{
    let all = le64_bytes(x as u64);
    let mut out: Vec<u8> = Vec::new();
    let part = slice_subrange(all.as_slice(), 0, size);
    out.extend_from_slice(part);
    assert(out@ =~= le_bytes(x as int, size as nat));
    out
}

/// The bytes of the adapter: the relocated template `thunk`, whose marker lies at
/// `moved`, with the payload pointer in its slot and, where the adapter has to be
/// told, the address at which the template at `addr`, whose marker lies at `magic`,
/// goes on after its slots. There is none where a slot does not lie in `thunk`, or
/// where that address is none.
pub open spec fn image(
    arch: Arch,
    thunk: Seq<u8>,
    moved: int,
    closure_ptr: usize,
    addr: usize,
    magic: usize,
) -> Option<Seq<u8>> {
    let size = pointer_size(arch);
    let slot = moved + closure_addr_offset(arch);
    if slot < 0 || slot + size > thunk.len() {
        None
    } else {
        let filled = overwritten(thunk, slot, le_bytes(closure_ptr as int, size as nat));
        match thunk_return_offset(arch) {
            None => Some(filled),
            Some(after) => if moved + 2 * size > thunk.len() || addr + magic + after
                > usize::MAX {
                None
            } else {
                Some(
                    overwritten(
                        filled,
                        moved + size,
                        le_bytes(tagged(arch, addr + magic + after), size as nat),
                    ),
                )
            },
        }
    }
}

/// Fills the slots of `thunk`.
fn fill(
    arch: Arch,
    thunk: &mut Vec<u8>,
    moved: usize,
    closure_ptr: usize,
    addr: usize,
    magic: usize,
) -> (r: bool)
    ensures
        r ==> image(arch, old(thunk)@, moved as int, closure_ptr, addr, magic) == Some(
            final(thunk)@,
        ),
        !r ==> image(arch, old(thunk)@, moved as int, closure_ptr, addr, magic) is None,
{
    let size = pointer_bytes(arch);
    let len = thunk.len();
    let slot: usize = match arch {
        Arch::X86 => {
            if moved < 15 {
                return false;
            }
            moved - 15
        },
        _ => moved,
    };
    if slot > len || size > len - slot {
        return false;
    }
    let after: usize = match arch {
        Arch::X86 => {
            overwrite(thunk, slot, pointer_le(closure_ptr, size).as_slice());
            return true;
        },
        Arch::X86_64 | Arch::AArch64 => 16,
        _ => 8,
    };
    if 2 * size > len - moved {
        return false;
    }
    let back = match addr.checked_add(magic) {
        Some(sum) => match sum.checked_add(after) {
            Some(back) => back,
            None => {
                return false;
            },
        },
        None => {
            return false;
        },
    };
    let back = match arch {
        Arch::Thumb => if back % 2 == 0 {
            back + 1
        } else {
            back
        },
        _ => back,
    };
    overwrite(thunk, slot, pointer_le(closure_ptr, size).as_slice());
    overwrite(thunk, moved + size, pointer_le(back, size).as_slice());
    true
}

/// Where in a region whose execute view is `rx` an adapter begins, so that its
/// marker slot, `magic_offset` bytes into it, is aligned where the adapter runs.
pub fn place(arch: Arch, rx: usize, magic_offset: usize) -> (r: usize)
    ensures
        r == gap(rx + magic_offset, magic_align(arch)),
        r < magic_align(arch),
        (rx + r + magic_offset) % magic_align(arch) == 0,
{
    proof {
        vstd::arithmetic::div_mod::lemma_add_mod_noop(rx as int, magic_offset as int, 8);
        vstd::arithmetic::div_mod::lemma_add_mod_noop(rx as int, magic_offset as int, 4);
    }
    match arch {
        Arch::X86_64 | Arch::AArch64 => (8 - (rx % 8 + magic_offset % 8) % 8) % 8,
        _ => (4 - (rx % 4 + magic_offset % 4) % 4) % 4,
    }
}

/// How far the materializer has come.
#[derive(Clone, Copy, Debug, PartialEq, Eq, Structural)]
pub enum Stage {
    /// Memory is being allocated.
    Allocating,
    /// The region is being made writable.
    MakingWritable,
    /// The adapter is being written.
    Writing,
    /// The region is being made executable.
    MakingExecutable,
    /// The instruction cache is being flushed.
    Flushing,
    /// Nothing is left to do.
    Finished,
}

/// What the caller reports.
#[derive(Clone, Copy, Debug, PartialEq, Eq, Structural)]
pub enum Event {
    /// The allocator gave a region with the execute view `rx` and the write view `rw`.
    Allocated { rx: usize, rw: usize },
    /// The allocator gave none.
    AllocFailed,
    /// What was asked for has been done.
    Done,
}

/// What the caller is to do next.
pub enum Action {
    /// Allocate `size` bytes, and report `Allocated` or `AllocFailed`.
    Alloc { size: usize },
    /// Set the access to the `size` bytes at `ptr`, and report `Done`.
    Protect { ptr: usize, size: usize, access: ProtectJitAccess },
    /// Copy `bytes` to the address `at` of the write view, and report `Done`.
    Write { at: usize, bytes: Vec<u8> },
    /// Flush the instruction cache over the `size` bytes at `ptr`, and report `Done`.
    Flush { ptr: usize, size: usize },
    /// The adapter is ready.
    Finish(AllocatedThunk),
    /// No adapter could be made.
    Fail(JitAllocError),
    /// The report does not fit what was asked for; nothing has changed.
    Rejected,
}

/// An action as a value.
pub enum ActionView {
    Alloc { size: usize },
    Protect { ptr: usize, size: usize, access: ProtectJitAccess },
    Write { at: usize, bytes: Seq<u8> },
    Flush { ptr: usize, size: usize },
    Finish(AllocatedThunk),
    Fail(JitAllocError),
    Rejected,
}

impl View for Action {
    type V = ActionView;

    open spec fn view(&self) -> ActionView {
        match *self {
            Action::Alloc { size } => ActionView::Alloc { size },
            Action::Protect { ptr, size, access } => ActionView::Protect { ptr, size, access },
            Action::Write { at, bytes } => ActionView::Write { at, bytes: bytes@ },
            Action::Flush { ptr, size } => ActionView::Flush { ptr, size },
            Action::Finish(thunk) => ActionView::Finish(thunk),
            Action::Fail(e) => ActionView::Fail(e),
            Action::Rejected => ActionView::Rejected,
        }
    }
}

/// The steps from a relocated template to an adapter. The materializer asks for one
/// action at a time and is told how it went: it allocates, makes the region writable,
/// has the adapter written, makes the region executable, has the instruction cache
/// flushed, and hands out the adapter.
pub struct Materializer {
    arch: Arch,
    stage: Stage,
    image: Vec<u8>,
    len: usize,
    magic_offset: usize,
    rx: usize,
    rw: usize,
    offset: usize,
}

/// A materializer as a value.
pub struct MaterializerView {
    pub arch: Arch,
    pub stage: Stage,
    /// The bytes of the adapter, until they are handed out to be written.
    pub image: Seq<u8>,
    /// The number of bytes of the adapter.
    pub len: usize,
    /// The offset of the marker slot in the adapter.
    pub magic_offset: usize,
    /// The execute view of the region, once there is one.
    pub rx: usize,
    /// The write view of the region, once there is one.
    pub rw: usize,
    /// Where in the region the adapter begins, so that its marker slot is aligned.
    pub offset: usize,
}

impl View for Materializer {
    type V = MaterializerView;

    closed spec fn view(&self) -> MaterializerView {
        MaterializerView {
            arch: self.arch,
            stage: self.stage,
            image: self.image@,
            len: self.len,
            magic_offset: self.magic_offset,
            rx: self.rx,
            rw: self.rw,
            offset: self.offset,
        }
    }
}

/// The materializer for the template at `addr` and the payload at `closure_ptr`, as
/// it stands before the allocation: the template is relocated and its slots are
/// filled. A template that cannot be relocated is refused with the engine's error,
/// and one whose slots do not lie in it as one whose marker slot is never reached.
pub open spec fn prepared(
    arch: Arch,
    template: Seq<u8>,
    addr: usize,
    magic: usize,
    closure_ptr: usize,
) -> Result<MaterializerView, JitError> {
    match relocated(arch, template, addr as u64, magic) {
        Err(e) => Err(e),
        Ok((thunk, moved)) => match image(arch, thunk, moved, closure_ptr, addr, magic) {
            None => Err(JitError::NoThunkAsm),
            Some(image) => Ok(
                MaterializerView {
                    arch,
                    stage: Stage::Allocating,
                    image,
                    len: image.len() as usize,
                    magic_offset: moved as usize,
                    rx: 0,
                    rw: 0,
                    offset: 0,
                },
            ),
        },
    }
}

/// The number of bytes to allocate for an adapter of `len` bytes: enough to move the
/// adapter so that its marker slot is aligned.
pub open spec fn alloc_size(arch: Arch, len: usize) -> usize {
    if len + magic_align(arch) - 1 > usize::MAX {
        usize::MAX
    } else {
        (len + magic_align(arch) - 1) as usize
    }
}

/// Whether a region of `alloc_size` bytes can begin at `base`.
pub open spec fn region_ok(arch: Arch, len: usize, base: usize) -> bool {
    base + len + magic_align(arch) - 1 <= usize::MAX
}

/// Whether the two views of a region are in line with each other: what is aligned
/// in the one is aligned in the other.
pub open spec fn in_line(arch: Arch, rx: usize, rw: usize) -> bool {
    rx % (magic_align(arch) as usize) == rw % (magic_align(arch) as usize)
}

/// What the materializer does when it is told `event`: its new state, and the action
/// that it asks for. A region is taken where it can hold the adapter in both views
/// and the views are in line with each other; any other is rejected.
pub open spec fn transition(m: MaterializerView, event: Event) -> (MaterializerView, ActionView) {
    match (m.stage, event) {
        (Stage::Allocating, Event::Allocated { rx, rw }) => if region_ok(m.arch, m.len, rx)
            && region_ok(m.arch, m.len, rw) && in_line(m.arch, rx, rw) {
            let offset = gap(rx + m.magic_offset, magic_align(m.arch)) as usize;
            (
                MaterializerView { stage: Stage::MakingWritable, rx, rw, offset, ..m },
                ActionView::Protect {
                    ptr: (rx + offset) as usize,
                    size: m.len,
                    access: ProtectJitAccess::ReadWrite,
                },
            )
        } else {
            (m, ActionView::Rejected)
        },
        (Stage::Allocating, Event::AllocFailed) => (
            MaterializerView { stage: Stage::Finished, ..m },
            ActionView::Fail(JitAllocError),
        ),
        (Stage::MakingWritable, Event::Done) => (
            MaterializerView { stage: Stage::Writing, image: Seq::empty(), ..m },
            ActionView::Write { at: (m.rw + m.offset) as usize, bytes: m.image },
        ),
        (Stage::Writing, Event::Done) => (
            MaterializerView { stage: Stage::MakingExecutable, ..m },
            ActionView::Protect {
                ptr: (m.rx + m.offset) as usize,
                size: m.len,
                access: ProtectJitAccess::ReadExecute,
            },
        ),
        (Stage::MakingExecutable, Event::Done) => (
            MaterializerView { stage: Stage::Flushing, ..m },
            ActionView::Flush { ptr: (m.rx + m.offset) as usize, size: m.len },
        ),
        (Stage::Flushing, Event::Done) => (
            MaterializerView { stage: Stage::Finished, ..m },
            ActionView::Finish(
                AllocatedThunk {
                    alloc_base: Some(m.rx),
                    thunk: tagged(m.arch, m.rx + m.offset) as usize,
                },
            ),
        ),
        _ => (m, ActionView::Rejected),
    }
}

impl Materializer {
    /// While a region is worked on, it has room for the adapter from `offset` on.
    pub open spec fn wf(&self) -> bool {
        let m = self@;
        &&& m.offset < magic_align(m.arch)
        &&& m.stage != Stage::Allocating && m.stage != Stage::Finished ==> region_ok(
            m.arch,
            m.len,
            m.rx,
        ) && region_ok(
            m.arch,
            m.len,
            m.rw,
        ) && in_line(m.arch, m.rx, m.rw)
    }

    /// Relocates the template `template`, which lies at `addr` and whose marker lies
    /// `magic_offset` bytes into it, and fills its slots for the payload at
    /// `closure_ptr`. Gives the materializer and its first action, the allocation.
    pub fn new(
        arch: Arch,
        template: &[u8],
        addr: usize,
        magic_offset: usize,
        closure_ptr: usize,
    ) -> (r: Result<(Materializer, Action), JitError>)
        ensures
            match r {
                Ok((m, action)) => prepared(arch, template@, addr, magic_offset, closure_ptr)
                    == Ok::<MaterializerView, JitError>(m@) && m.wf() && action@
                    == (ActionView::Alloc { size: alloc_size(arch, m@.len) }),
                Err(e) => prepared(arch, template@, addr, magic_offset, closure_ptr) == Err::<
                    MaterializerView,
                    JitError,
                >(e),
            },
    {
        let reloc = match try_reloc_thunk_template(arch, template, addr as u64, magic_offset) {
            Ok(reloc) => reloc,
            Err(e) => {
                return Err(e);
            },
        };
        let moved = reloc.magic_offset;
        let mut image: Vec<u8> = Vec::new();
        match &reloc.thunk {
            std::borrow::Cow::Borrowed(bytes) => {
                image.extend_from_slice(bytes);
            },
            std::borrow::Cow::Owned(bytes) => {
                image.extend_from_slice(bytes.as_slice());
            },
        }
        assert(image@ =~= reloc.thunk@);
        if !fill(arch, &mut image, moved, closure_ptr, addr, magic_offset) {
            return Err(JitError::NoThunkAsm);
        }
        let len = image.len();
        let size = match len.checked_add(align(arch) - 1) {
            Some(size) => size,
            None => usize::MAX,
        };
        Ok(
            (
                Materializer {
                    arch,
                    stage: Stage::Allocating,
                    image,
                    len,
                    magic_offset: moved,
                    rx: 0,
                    rw: 0,
                    offset: 0,
                },
                Action::Alloc { size },
            ),
        )
    }

    /// Takes the report `event` and gives the next action.
    pub fn step(&mut self, event: Event) -> (action: Action)
        requires
            old(self).wf(),
        ensures
            final(self).wf(),
            (final(self)@, action@) == transition(old(self)@, event),
    {
        match (self.stage, event) {
            (Stage::Allocating, Event::Allocated { rx, rw }) => {
                let room = self.len;
                let quantum = align(self.arch);
                if room > usize::MAX - rx || quantum - 1 > usize::MAX - rx - room || room
                    > usize::MAX - rw || quantum - 1 > usize::MAX - rw - room {
                    return Action::Rejected;
                }
                if rx % quantum != rw % quantum {
                    return Action::Rejected;
                }
                let offset = place(self.arch, rx, self.magic_offset);
                self.stage = Stage::MakingWritable;
                self.rx = rx;
                self.rw = rw;
                self.offset = offset;
                Action::Protect {
                    ptr: rx + offset,
                    size: room,
                    access: ProtectJitAccess::ReadWrite,
                }
            },
            (Stage::Allocating, Event::AllocFailed) => {
                self.stage = Stage::Finished;
                Action::Fail(JitAllocError)
            },
            (Stage::MakingWritable, Event::Done) => {
                let mut bytes: Vec<u8> = Vec::new();
                std::mem::swap(&mut self.image, &mut bytes);
                self.stage = Stage::Writing;
                Action::Write { at: self.rw + self.offset, bytes }
            },
            (Stage::Writing, Event::Done) => {
                self.stage = Stage::MakingExecutable;
                Action::Protect {
                    ptr: self.rx + self.offset,
                    size: self.len,
                    access: ProtectJitAccess::ReadExecute,
                }
            },
            (Stage::MakingExecutable, Event::Done) => {
                self.stage = Stage::Flushing;
                Action::Flush { ptr: self.rx + self.offset, size: self.len }
            },
            (Stage::Flushing, Event::Done) => {
                self.stage = Stage::Finished;
                let code = self.rx + self.offset;
                let entry = match self.arch {
                    Arch::Thumb => if code % 2 == 0 {
                        code + 1
                    } else {
                        code
                    },
                    _ => code,
                };
                Action::Finish(AllocatedThunk::owning(self.rx, entry))
            },
            _ => Action::Rejected,
        }
    }
}

/// Once a region is there, the materializer asks for its steps in a fixed order,
/// each when the one before is done: the region is made writable before the adapter
/// is written, and it is made executable and the instruction cache is flushed before
/// the adapter is handed out. The adapter that is handed out owns the region that
/// the allocator gave, and is called through the place of the adapter in it. The
/// adapter lies within what was asked of the allocator, less than one alignment
/// above the region's start, and there the marker slot is in line with pointers in
/// both views, which is what the literal loads of a relocated template are encoded
/// for.
pub proof fn lemma_steps_in_order(m: MaterializerView, rx: usize, rw: usize)
    requires
        m.stage == Stage::Allocating,
        region_ok(m.arch, m.len, rx),
        region_ok(m.arch, m.len, rw),
        in_line(m.arch, rx, rw),
    ensures
        ({
            let offset = gap(rx + m.magic_offset, magic_align(m.arch));
            let code = (rx + offset) as usize;
            let writable = transition(m, Event::Allocated { rx, rw });
            let written = transition(writable.0, Event::Done);
            let executable = transition(written.0, Event::Done);
            let flushed = transition(executable.0, Event::Done);
            let finished = transition(flushed.0, Event::Done);
            &&& writable.1 == (ActionView::Protect {
                ptr: code,
                size: m.len,
                access: ProtectJitAccess::ReadWrite,
            })
            &&& written.1 == (ActionView::Write { at: (rw + offset) as usize, bytes: m.image })
            &&& executable.1 == (ActionView::Protect {
                ptr: code,
                size: m.len,
                access: ProtectJitAccess::ReadExecute,
            })
            &&& flushed.1 == (ActionView::Flush { ptr: code, size: m.len })
            &&& finished.1 == ActionView::Finish(
                AllocatedThunk {
                    alloc_base: Some(rx),
                    thunk: tagged(m.arch, rx + offset) as usize,
                },
            )
            &&& finished.0.stage == Stage::Finished
            &&& 0 <= offset < magic_align(m.arch)
            &&& offset + m.len <= alloc_size(m.arch, m.len) == m.len + magic_align(m.arch) - 1
            &&& (code + m.magic_offset) % magic_align(m.arch) == 0
            &&& (rw + offset + m.magic_offset) % magic_align(m.arch) == 0
        }),
{
    let offset = gap(rx + m.magic_offset, magic_align(m.arch));
    assert(0 <= offset < magic_align(m.arch));
    assert((rx + offset + m.magic_offset) % magic_align(m.arch) == 0) by {
        lemma_gap_aligns(rx + m.magic_offset, magic_align(m.arch));
    }
    lemma_in_line(rx as int, rw as int, offset + m.magic_offset, magic_align(m.arch));
    let writable = transition(m, Event::Allocated { rx, rw });
    assert(writable.0.stage == Stage::MakingWritable);
    assert(writable.0.offset == offset);
    let written = transition(writable.0, Event::Done);
    assert(written.0.stage == Stage::Writing);
    let executable = transition(written.0, Event::Done);
    assert(executable.0.stage == Stage::MakingExecutable);
    let flushed = transition(executable.0, Event::Done);
    assert(flushed.0.stage == Stage::Flushing);
}

/// What brings one of two addresses in line with pointers brings the other in line,
/// where the two are in line with each other.
pub proof fn lemma_in_line(a: int, b: int, by: int, align: int)
    requires
        0 <= a,
        0 <= b,
        0 <= by,
        align == 4 || align == 8,
        a % align == b % align,
        (a + by) % align == 0,
    ensures
        (b + by) % align == 0,
{
    if align == 4 {
        assert((b + by) % 4 == 0);
    } else {
        assert((b + by) % 8 == 0);
    }
}

/// The next multiple of four or eight above an address is the address and its gap.
pub proof fn lemma_gap_aligns(addr: int, align: int)
    requires
        0 <= addr,
        align == 4 || align == 8,
    ensures
        0 <= gap(addr, align) < align,
        (addr + gap(addr, align)) % align == 0,
{
    if align == 4 {
        assert((addr + (4 - addr % 4) % 4) % 4 == 0);
    } else {
        assert((addr + (8 - addr % 8) % 8) % 8 == 0);
    }
}

/// The allocation is asked for once, when the materializer is made: whatever it is
/// told afterwards, it asks for no other.
pub proof fn lemma_allocates_once(m: MaterializerView, event: Event)
    ensures
        !(transition(m, event).1 is Alloc),
{
}

/// A materializer that is done, or meets a report that does not fit what it asked
/// for, asks for nothing more: it stays as it is.
pub proof fn lemma_rejected_changes_nothing(m: MaterializerView, event: Event)
    requires
        transition(m, event).1 == ActionView::Rejected,
    ensures
        transition(m, event).0 == m,
{
}

} // verus!
