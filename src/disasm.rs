use vstd::prelude::*;
use capstone::arch::{BuildsCapstone, arm64, x86};
use capstone::Capstone;
use crate::thread_state::Arch;

verus! {

/// One decoded instruction.
pub struct Insn {
    pub mnemonic: Vec<char>,
    pub operands: Vec<char>,
    pub bytes: Vec<u8>,
}

/// What the disassembler makes of the first instruction in `code` placed at
/// `addr`: mnemonic, operand text and the instruction's bytes, or nothing.
pub uninterp spec fn first_insn(code: Seq<u8>, addr: u64, arch: Arch) -> Option<(Seq<char>, Seq<char>, Seq<u8>)>;

/// Relies on capstone's `Capstone::disasm_all` (64-bit x86 mode, or AArch64 in
/// ARM mode): its first instruction depends on the bytes, the address and the
/// mode alone; a failed build or decode gives no instruction.
#[verifier::external_body]
pub(crate) fn disasm_first(arch: Arch, code: &[u8], addr: u64) -> (r: Option<Insn>)
    ensures
        match r {
            Some(i) => first_insn(code@, addr, arch) == Some((i.mnemonic@, i.operands@, i.bytes@)),
            None => first_insn(code@, addr, arch) is None,
        },
{
    let cs = match arch {
        Arch::X86_64 => Capstone::new().x86().mode(x86::ArchMode::Mode64).build(),
        Arch::AArch64 => Capstone::new().arm64().mode(arm64::ArchMode::Arm).build(),
    }.ok()?;
    let insns = cs.disasm_all(code, addr).ok()?;
    let i = insns.iter().next()?;
    Some(Insn {
        mnemonic: i.mnemonic().unwrap_or("").chars().collect(),
        operands: i.op_str().unwrap_or("").chars().collect(),
        bytes: i.bytes().to_vec(),
    })
}

} // verus!
