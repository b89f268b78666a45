//! Relocation engines, one per instruction set, and what they share.

use vstd::prelude::*;
use std::borrow::Cow;

pub mod util;
pub mod arm_util;
pub mod liveness;
pub mod iced;
pub mod disasm;
pub mod x86_64;
pub mod x86;
pub mod aarch64;
pub mod arm;

verus! {

/// Why a template could not be relocated.
#[derive(Clone, Copy, Debug, PartialEq, Eq, Structural)]
pub enum JitError {
    /// The bytes do not decode as an instruction.
    InvalidInstruction,
    /// An instruction depends on its address in a way that cannot be rewritten.
    UnsupportedInstruction,
    /// A control transfer that cannot be followed or moved.
    UnsupportedControlFlow,
    /// No register is dead where a scratch register is needed.
    NoAvailableRegister,
    /// An operand of a synthesized instruction does not fit its field.
    EncodingError,
    /// The instruction that reads the marker slot was never reached.
    NoThunkAsm,
}

/// The instruction sets that have an engine.
#[derive(Clone, Copy, Debug, PartialEq, Eq, Structural)]
pub enum Arch {
    /// 32-bit x86.
    X86,
    /// x86-64.
    X86_64,
    /// AArch64.
    AArch64,
    /// 32-bit ARM, A32 instructions.
    Arm,
    /// 32-bit ARM, Thumb instructions.
    Thumb,
}

/// A relocated template: its bytes, borrowed from the template where nothing had to be
/// rewritten, and the offset of the marker slot in them.
pub struct RelocThunk<'a> {
    pub thunk: Cow<'a, [u8]>,
    pub magic_offset: usize,
}

/// The low 32 bits of an address.
pub open spec fn low(ip: u64) -> u32 {
    (ip % 0x1_0000_0000) as u32
}

/// The relocated template and the new offset of its marker slot, as the engine of
/// `arch` gives them. An ARM engine takes the low 32 bits of `ip`.
pub open spec fn relocated(arch: Arch, code: Seq<u8>, ip: u64, magic: usize) -> Result<
    (Seq<u8>, int),
    JitError,
> {
    match arch {
        Arch::X86 => x86::relocated(code, ip, magic),
        Arch::X86_64 => x86_64::relocated(code, ip, magic),
        Arch::AArch64 => aarch64::relocated(code, ip, magic),
        Arch::Arm => arm::relocated(false, code, low(ip), magic),
        Arch::Thumb => arm::relocated(true, code, low(ip), magic),
    }
}

/// Relocates the prefix of the template `prologue`, loaded at `ip`, whose marker lies
/// `magic_offset` bytes into it, or tells why it cannot be relocated.
pub fn try_reloc_thunk_template<'a>(
    arch: Arch,
    prologue: &'a [u8],
    ip: u64,
    magic_offset: usize,
) -> (r: Result<RelocThunk<'a>, JitError>)
    ensures
        match r {
            Ok(reloc) => relocated(arch, prologue@, ip, magic_offset) == Ok::<
                (Seq<u8>, int),
                JitError,
            >((reloc.thunk@, reloc.magic_offset as int)),
            Err(e) => relocated(arch, prologue@, ip, magic_offset) == Err::<
                (Seq<u8>, int),
                JitError,
            >(e),
        },
{
    match arch {
        Arch::X86 => x86::try_reloc_thunk_template(prologue, ip, magic_offset),
        Arch::X86_64 => x86_64::try_reloc_thunk_template(prologue, ip, magic_offset),
        Arch::AArch64 => aarch64::try_reloc_thunk_template(prologue, ip, magic_offset),
        Arch::Arm => arm::try_reloc_thunk_template(
            false,
            prologue,
            (ip % 0x1_0000_0000) as u32,
            magic_offset,
        ),
        Arch::Thumb => arm::try_reloc_thunk_template(
            true,
            prologue,
            (ip % 0x1_0000_0000) as u32,
            magic_offset,
        ),
    }
}

/// Relocates the prefix of the template `prologue`, which can be relocated.
pub fn reloc_thunk_template<'a>(arch: Arch, prologue: &'a [u8], ip: u64, magic_offset: usize) -> (r:
    RelocThunk<'a>)
    requires
        relocated(arch, prologue@, ip, magic_offset) is Ok,
    ensures
        relocated(arch, prologue@, ip, magic_offset) == Ok::<(Seq<u8>, int), JitError>(
            (r.thunk@, r.magic_offset as int),
        ),
{
    match try_reloc_thunk_template(arch, prologue, ip, magic_offset) {
        Ok(reloc) => reloc,
        Err(_) => RelocThunk { thunk: Cow::Borrowed(prologue), magic_offset },
    }
}

/// Relocates the prefix of the template `prologue` where it can be relocated, and
/// gives nothing where it cannot.
pub fn reloc_thunk_template_checked<'a>(
    arch: Arch,
    prologue: &'a [u8],
    ip: u64,
    magic_offset: usize,
) -> (r: Option<RelocThunk<'a>>)
    ensures
        r is Some <==> relocated(arch, prologue@, ip, magic_offset) is Ok,
        r matches Some(reloc) ==> relocated(arch, prologue@, ip, magic_offset) == Ok::<
            (Seq<u8>, int),
            JitError,
        >((reloc.thunk@, reloc.magic_offset as int)),
{
    match try_reloc_thunk_template(arch, prologue, ip, magic_offset) {
        Ok(_) => Some(reloc_thunk_template(arch, prologue, ip, magic_offset)),
        Err(_) => None,
    }
}

} // verus!
