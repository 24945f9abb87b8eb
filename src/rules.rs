use vstd::prelude::*;
use crate::storage::MemChange;
use crate::text::{contains_exec, contains_seq, decimal, occurs_at, occurs_at_exec, push_decimal};
use crate::thread_state::{Arch, RegState};

verus! {

/// How an instruction moves the call stack.
#[derive(Clone, Copy, Debug, PartialEq, Eq, Structural)]
pub enum InsnClass {
    Call,
    Return,
    Other,
}

/// The call/return class of a mnemonic on an architecture.
pub open spec fn classify(arch: Arch, m: Seq<char>) -> InsnClass {
    match arch {
        Arch::X86_64 => if m == seq!['c', 'a', 'l', 'l'] {
            InsnClass::Call
        } else if m == seq!['r', 'e', 't'] || m == seq!['r', 'e', 't', 'q'] {
            InsnClass::Return
        } else {
            InsnClass::Other
        },
        Arch::AArch64 => if m == seq!['b', 'l'] || m == seq!['b', 'l', 'r'] {
            InsnClass::Call
        } else if m == seq!['r', 'e', 't'] {
            InsnClass::Return
        } else {
            InsnClass::Other
        },
    }
}

/// The call depth after an instruction of class `c`: up one on a call, down
/// one (never below zero) on a return.
pub open spec fn next_depth(depth: u64, c: InsnClass) -> int {
    match c {
        InsnClass::Call => depth + 1,
        InsnClass::Return => if depth > 0 {
            depth - 1
        } else {
            0
        },
        InsnClass::Other => depth as int,
    }
}

/// The note appended to a call or return: ` ; CALL [depth:N]` or ` ; RETURN [depth:N]`.
pub open spec fn annotation(c: InsnClass, depth: nat) -> Seq<char> {
    match c {
        InsnClass::Call => seq![' ', ';', ' ', 'C', 'A', 'L', 'L', ' ', '[', 'd', 'e', 'p', 't', 'h', ':']
            + decimal(depth) + seq![']'],
        InsnClass::Return => seq![
            ' ',
            ';',
            ' ',
            'R',
            'E',
            'T',
            'U',
            'R',
            'N',
            ' ',
            '[',
            'd',
            'e',
            'p',
            't',
            'h',
            ':',
        ] + decimal(depth) + seq![']'],
        InsnClass::Other => Seq::empty(),
    }
}

/// The recorded text of an instruction: `<mnemonic> <operands>` and its note.
pub open spec fn insn_text(m: Seq<char>, ops: Seq<char>, c: InsnClass, depth: nat) -> Seq<char> {
    m + seq![' '] + ops + annotation(c, depth)
}

/// Whether the stack window is sampled: the stack pointer moved, or the
/// mnemonic names a store, push or pop.
pub open spec fn stack_window_wanted(sp: u64, last_sp: u64, m: Seq<char>) -> bool {
    sp != last_sp || contains_seq(m, seq!['s', 't', 'r']) || contains_seq(m, seq!['s', 't'])
        || contains_seq(m, seq!['p', 'u', 's', 'h']) || contains_seq(m, seq!['p', 'o', 'p'])
}

/// Whether the operand-directed byte probe applies to the mnemonic.
pub open spec fn probe_wanted(m: Seq<char>) -> bool {
    contains_seq(m, seq!['s', 't', 'r']) || contains_seq(m, seq!['s', 't']) || contains_seq(
        m,
        seq!['m', 'o', 'v'],
    )
}

/// The start of the 256-byte stack window: 128 bytes below `sp`, floored at zero.
pub open spec fn window_base(sp: u64) -> u64 {
    if sp >= 128 {
        (sp - 128) as u64
    } else {
        0
    }
}

/// The size of the stack window.
pub const WINDOW_LEN: usize = 256;

/// The base of the 256-byte-aligned block holding `addr`.
pub open spec fn block_of(addr: u64) -> u64 {
    (addr - addr % 256) as u64
}

/// The single-byte target named by a register-indirect operand, if any.
pub open spec fn probe_target(regs: RegState, ops: Seq<char>) -> Option<u64> {
    match regs {
        RegState::AArch64(t) => if contains_seq(ops, seq!['[', 'x', '0', ']']) {
            Some(t.x@[0])
        } else if contains_seq(ops, seq!['[', 'x', '1', ']']) {
            Some(t.x@[1])
        } else if contains_seq(ops, seq!['[', 's', 'p']) {
            Some(t.sp)
        } else {
            None
        },
        RegState::X86_64(t) => if contains_seq(ops, seq!['[', 'r', 'a', 'x', ']']) {
            Some(t.rax)
        } else if contains_seq(ops, seq!['[', 'r', 'b', 'x', ']']) {
            Some(t.rbx)
        } else if contains_seq(ops, seq!['[', 'r', 's', 'p']) {
            Some(t.rsp)
        } else {
            None
        },
    }
}

/// The byte-wise differences among the first `n` bytes of two snapshots of
/// the window at `base`, in address order.
pub open spec fn window_diff(base: u64, old: Seq<u8>, new: Seq<u8>, n: int) -> Seq<MemChange>
    decreases n,
{
    if n <= 0 {
        Seq::empty()
    } else {
        let prev = window_diff(base, old, new, n - 1);
        if old[n - 1] != new[n - 1] {
            prev.push(MemChange { addr: base.wrapping_add((n - 1) as u64), old_val: old[n - 1], new_val: new[n - 1] })
        } else {
            prev
        }
    }
}

/// The changes between a cached window (if any) and a fresh read of it.
pub open spec fn stack_changes(base: u64, old: Option<Seq<u8>>, new: Seq<u8>) -> Seq<MemChange> {
    match old {
        Some(o) => window_diff(base, o, new, if o.len() < new.len() {
            o.len() as int
        } else {
            new.len() as int
        }),
        None => Seq::empty(),
    }
}

/// The change seen by the byte probe at `addr`, given the cached block that
/// held it and the byte read now.
pub open spec fn probe_change(addr: u64, block: Option<Seq<u8>>, now: Seq<u8>) -> Option<MemChange> {
    match block {
        Some(w) => {
            let off = (addr % 256) as int;
            if off < w.len() && now.len() > 0 && now[0] != w[off] {
                Some(MemChange { addr, old_val: w[off], new_val: now[0] })
            } else {
                None
            }
        },
        None => None,
    }
}

/// Every change records a byte that really differs.
pub open spec fn changes_differ(cs: Seq<MemChange>) -> bool {
    forall|i: int| 0 <= i < cs.len() ==> (#[trigger] cs[i]).old_val != cs[i].new_val
}

/// A window difference only ever reports bytes that differ.
pub proof fn lemma_window_diff_differ(base: u64, old: Seq<u8>, new: Seq<u8>, n: int)
    requires
        n <= old.len(),
        n <= new.len(),
    ensures
        changes_differ(window_diff(base, old, new, n)),
        window_diff(base, old, new, n).len() <= if n < 0 {
            0
        } else {
            n
        },
    decreases n,
{
    if n > 0 {
        lemma_window_diff_differ(base, old, new, n - 1);
    }
}

/// Whether two character vectors hold the same characters.
pub fn same_chars(a: &Vec<char>, b: &Vec<char>) -> (r: bool)
    ensures
        r == (a@ == b@),
{
    if a.len() != b.len() {
        return false;
    }
    let r = occurs_at_exec(a, b, 0);
    assert(a@.subrange(0, b@.len() as int) =~= a@);
    r
}

/// The call/return class of mnemonic `m`.
pub fn classify_exec(arch: Arch, m: &Vec<char>) -> (r: InsnClass)
    ensures
        r == classify(arch, m@),
{
    let call = vec!['c', 'a', 'l', 'l'];
    let ret = vec!['r', 'e', 't'];
    let retq = vec!['r', 'e', 't', 'q'];
    let bl = vec!['b', 'l'];
    let blr = vec!['b', 'l', 'r'];
    assert(call@ =~= seq!['c', 'a', 'l', 'l']);
    assert(ret@ =~= seq!['r', 'e', 't']);
    assert(retq@ =~= seq!['r', 'e', 't', 'q']);
    assert(bl@ =~= seq!['b', 'l']);
    assert(blr@ =~= seq!['b', 'l', 'r']);
    match arch {
        Arch::X86_64 => if same_chars(m, &call) {
            InsnClass::Call
        } else if same_chars(m, &ret) || same_chars(m, &retq) {
            InsnClass::Return
        } else {
            InsnClass::Other
        },
        Arch::AArch64 => if same_chars(m, &bl) || same_chars(m, &blr) {
            InsnClass::Call
        } else if same_chars(m, &ret) {
            InsnClass::Return
        } else {
            InsnClass::Other
        },
    }
}

/// The call depth after an instruction of class `c`.
pub fn next_depth_exec(depth: u64, c: InsnClass) -> (r: u64)
    requires
        depth < u64::MAX,
    ensures
        r == next_depth(depth, c),
{
    match c {
        InsnClass::Call => depth + 1,
        InsnClass::Return => if depth > 0 {
            depth - 1
        } else {
            0
        },
        InsnClass::Other => depth,
    }
}

/// The recorded text of an instruction.
pub fn insn_text_exec(m: &Vec<char>, ops: &Vec<char>, c: InsnClass, depth: u64) -> (r: Vec<char>)
    ensures
        r@ == insn_text(m@, ops@, c, depth as nat),
{
    let mut out: Vec<char> = Vec::new();
    crate::text::push_all(&mut out, m);
    out.push(' ');
    crate::text::push_all(&mut out, ops);
    let ghost base = out@;
    assert(base =~= m@ + seq![' '] + ops@);
    match c {
        InsnClass::Call => {
            let note = vec![' ', ';', ' ', 'C', 'A', 'L', 'L', ' ', '[', 'd', 'e', 'p', 't', 'h', ':'];
            crate::text::push_all(&mut out, &note);
            push_decimal(&mut out, depth);
            out.push(']');
            assert(out@ =~= base + annotation(c, depth as nat));
        },
        InsnClass::Return => {
            let note = vec![
                ' ',
                ';',
                ' ',
                'R',
                'E',
                'T',
                'U',
                'R',
                'N',
                ' ',
                '[',
                'd',
                'e',
                'p',
                't',
                'h',
                ':',
            ];
            crate::text::push_all(&mut out, &note);
            push_decimal(&mut out, depth);
            out.push(']');
            assert(out@ =~= base + annotation(c, depth as nat));
        },
        InsnClass::Other => {
            assert(out@ =~= base + annotation(c, depth as nat));
        },
    }
    out
}

/// Whether the stack window is sampled for this instruction.
pub fn stack_window_wanted_exec(sp: u64, last_sp: u64, m: &Vec<char>) -> (r: bool)
    ensures
        r == stack_window_wanted(sp, last_sp, m@),
{
    let p_str = vec!['s', 't', 'r'];
    let p_st = vec!['s', 't'];
    let p_push = vec!['p', 'u', 's', 'h'];
    let p_pop = vec!['p', 'o', 'p'];
    assert(p_str@ =~= seq!['s', 't', 'r']);
    assert(p_st@ =~= seq!['s', 't']);
    assert(p_push@ =~= seq!['p', 'u', 's', 'h']);
    assert(p_pop@ =~= seq!['p', 'o', 'p']);
    sp != last_sp || contains_exec(m, &p_str) || contains_exec(m, &p_st) || contains_exec(m, &p_push)
        || contains_exec(m, &p_pop)
}

/// Whether the byte probe applies to this mnemonic.
pub fn probe_wanted_exec(m: &Vec<char>) -> (r: bool)
    ensures
        r == probe_wanted(m@),
{
    let p_str = vec!['s', 't', 'r'];
    let p_st = vec!['s', 't'];
    let p_mov = vec!['m', 'o', 'v'];
    assert(p_str@ =~= seq!['s', 't', 'r']);
    assert(p_st@ =~= seq!['s', 't']);
    assert(p_mov@ =~= seq!['m', 'o', 'v']);
    contains_exec(m, &p_str) || contains_exec(m, &p_st) || contains_exec(m, &p_mov)
}

/// The start of the stack window for `sp`.
pub fn window_base_exec(sp: u64) -> (r: u64)
    ensures
        r == window_base(sp),
{
    sp.saturating_sub(128)
}

/// The aligned block holding `addr`.
pub fn block_of_exec(addr: u64) -> (r: u64)
    ensures
        r == block_of(addr),
{
    addr - addr % 256
}

/// The single-byte target named by the operand text, if any.
pub fn extract_memory_address(regs: &RegState, ops: &Vec<char>) -> (r: Option<u64>)
    ensures
        r == probe_target(*regs, ops@),
{
    match regs {
        RegState::AArch64(t) => {
            let a = vec!['[', 'x', '0', ']'];
            let b = vec!['[', 'x', '1', ']'];
            let c = vec!['[', 's', 'p'];
            assert(a@ =~= seq!['[', 'x', '0', ']']);
            assert(b@ =~= seq!['[', 'x', '1', ']']);
            assert(c@ =~= seq!['[', 's', 'p']);
            if contains_exec(ops, &a) {
                Some(t.get_x0())
            } else if contains_exec(ops, &b) {
                Some(t.get_x1())
            } else if contains_exec(ops, &c) {
                Some(t.get_sp())
            } else {
                None
            }
        },
        RegState::X86_64(t) => {
            let a = vec!['[', 'r', 'a', 'x', ']'];
            let b = vec!['[', 'r', 'b', 'x', ']'];
            let c = vec!['[', 'r', 's', 'p'];
            assert(a@ =~= seq!['[', 'r', 'a', 'x', ']']);
            assert(b@ =~= seq!['[', 'r', 'b', 'x', ']']);
            assert(c@ =~= seq!['[', 'r', 's', 'p']);
            if contains_exec(ops, &a) {
                Some(t.get_rax())
            } else if contains_exec(ops, &b) {
                Some(t.get_rbx())
            } else if contains_exec(ops, &c) {
                Some(t.get_rsp())
            } else {
                None
            }
        },
    }
}

/// Appends the differences between a cached window and a fresh read of it.
pub fn push_stack_changes(out: &mut Vec<MemChange>, base: u64, prev: &Vec<u8>, new: &Vec<u8>)
    ensures
        final(out)@ == old(out)@ + stack_changes(base, Some(prev@), new@),
{
    let n: usize = if prev.len() < new.len() {
        prev.len()
    } else {
        new.len()
    };
    let ghost start = out@;
    let mut i: usize = 0;
    while i < n
        invariant
            n <= prev@.len(),
            n <= new@.len(),
            0 <= i <= n,
            out@ == start + window_diff(base, prev@, new@, i as int),
        decreases n - i,
    {
        if prev[i] != new[i] {
            out.push(MemChange { addr: base.wrapping_add(i as u64), old_val: prev[i], new_val: new[i] });
        }
        assert(out@ =~= start + window_diff(base, prev@, new@, i + 1));
        i += 1;
    }
}

/// The change seen by the byte probe, if any.
pub fn probe_change_exec(addr: u64, block: Option<&Vec<u8>>, now: &Vec<u8>) -> (r: Option<MemChange>)
    ensures
        r == probe_change(
            addr,
            match block {
                Some(w) => Some(w@),
                None => None,
            },
            now@,
        ),
{
    match block {
        Some(w) => {
            let off = (addr % 256) as usize;
            if off < w.len() && now.len() > 0 && now[0] != w[off] {
                Some(MemChange { addr, old_val: w[off], new_val: now[0] })
            } else {
                None
            }
        },
        None => None,
    }
}

} // verus!
