use vstd::prelude::*;
use crate::text::{decimal, push_all, push_decimal, string_from_chars};

verus! {

/// The register file of an x86-64 thread, in the kernel's layout.
#[allow(non_camel_case_types)]
#[derive(Clone, Copy, Debug)]
pub struct x86_thread_state64_t {
    pub rax: u64,
    pub rbx: u64,
    pub rcx: u64,
    pub rdx: u64,
    pub rdi: u64,
    pub rsi: u64,
    pub rbp: u64,
    pub rsp: u64,
    pub r8: u64,
    pub r9: u64,
    pub r10: u64,
    pub r11: u64,
    pub r12: u64,
    pub r13: u64,
    pub r14: u64,
    pub r15: u64,
    pub rip: u64,
    pub rflags: u64,
    pub cs: u64,
    pub fs: u64,
    pub gs: u64,
}

/// The register file of an AArch64 thread, in the kernel's layout.
#[allow(non_camel_case_types)]
#[derive(Clone, Copy, Debug)]
pub struct arm_thread_state64_t {
    pub x: [u64; 29],
    pub fp: u64,
    pub lr: u64,
    pub sp: u64,
    pub pc: u64,
    pub cpsr: u32,
    pub pad: u32,
}

impl x86_thread_state64_t {
    pub fn get_sp(&self) -> (r: u64)
        ensures
            r == self.rsp,
    {
        self.rsp
    }

    pub fn get_rax(&self) -> (r: u64)
        ensures
            r == self.rax,
    {
        self.rax
    }

    pub fn get_rbx(&self) -> (r: u64)
        ensures
            r == self.rbx,
    {
        self.rbx
    }

    pub fn get_rsp(&self) -> (r: u64)
        ensures
            r == self.rsp,
    {
        self.rsp
    }
}

impl arm_thread_state64_t {
    pub fn get_sp(&self) -> (r: u64)
        ensures
            r == self.sp,
    {
        self.sp
    }

    pub fn get_x0(&self) -> (r: u64)
        ensures
            r == self.x@[0],
    {
        self.x[0]
    }

    pub fn get_x1(&self) -> (r: u64)
        ensures
            r == self.x@[1],
    {
        self.x[1]
    }
}

/// The instruction set of the traced task.
#[derive(Clone, Copy, Debug, PartialEq, Eq, Structural)]
pub enum Arch {
    X86_64,
    AArch64,
}

/// A register snapshot of one thread, tagged by architecture.
#[derive(Clone, Copy, Debug)]
pub enum RegState {
    X86_64(x86_thread_state64_t),
    AArch64(arm_thread_state64_t),
}


/// The register names of the x86-64 dump, in order.
pub open spec fn x86_keys() -> Seq<Seq<char>> {
    seq![
        seq!['r', 'a', 'x'],
        seq!['r', 'b', 'x'],
        seq!['r', 'c', 'x'],
        seq!['r', 'd', 'x'],
        seq!['r', 'd', 'i'],
        seq!['r', 's', 'i'],
        seq!['r', 'b', 'p'],
        seq!['r', 's', 'p'],
        seq!['r', '8'],
        seq!['r', '9'],
        seq!['r', '1', '0'],
        seq!['r', '1', '1'],
        seq!['r', '1', '2'],
        seq!['r', '1', '3'],
        seq!['r', '1', '4'],
        seq!['r', '1', '5'],
        seq!['r', 'i', 'p'],
        seq!['r', 'f', 'l', 'a', 'g', 's'],
    ]
}

/// The register values of the x86-64 dump, in the order of `x86_keys`.
pub open spec fn x86_values(s: x86_thread_state64_t) -> Seq<u64> {
    seq![
        s.rax, s.rbx, s.rcx, s.rdx, s.rdi, s.rsi, s.rbp, s.rsp,
        s.r8, s.r9, s.r10, s.r11, s.r12, s.r13, s.r14, s.r15,
        s.rip, s.rflags,
    ]
}

/// The register names of the AArch64 dump: `x0` to `x28`, then `fp lr sp pc cpsr`.
pub open spec fn arm_keys() -> Seq<Seq<char>> {
    Seq::new(29, |i: int| seq!['x'] + decimal(i as nat)) + seq![
        seq!['f', 'p'],
        seq!['l', 'r'],
        seq!['s', 'p'],
        seq!['p', 'c'],
        seq!['c', 'p', 's', 'r'],
    ]
}

/// The register values of the AArch64 dump, in the order of `arm_keys`.
pub open spec fn arm_values(s: arm_thread_state64_t) -> Seq<u64> {
    s.x@ + seq![s.fp, s.lr, s.sp, s.pc, s.cpsr as u64]
}

/// `"key":value`.
pub open spec fn json_member(key: Seq<char>, v: u64) -> Seq<char> {
    seq!['"'] + key + seq!['"', ':'] + decimal(v as nat)
}

/// The members for the first `keys.len()` pairs, separated by commas.
pub open spec fn json_members(keys: Seq<Seq<char>>, vals: Seq<u64>) -> Seq<char>
    decreases keys.len(),
{
    if keys.len() == 0 {
        Seq::empty()
    } else if keys.len() == 1 {
        json_member(keys[0], vals[0])
    } else {
        json_members(keys.drop_last(), vals.subrange(0, keys.len() - 1)) + seq![',']
            + json_member(keys.last(), vals[keys.len() - 1])
    }
}

/// A JSON object of unsigned integers, keys in the given order, no white space.
pub open spec fn json_object(keys: Seq<Seq<char>>, vals: Seq<u64>) -> Seq<char> {
    seq!['{'] + json_members(keys, vals) + seq!['}']
}

/// The register dump recorded for a snapshot.
pub open spec fn regs_json(s: RegState) -> Seq<char> {
    match s {
        RegState::X86_64(t) => json_object(x86_keys(), x86_values(t)),
        RegState::AArch64(t) => json_object(arm_keys(), arm_values(t)),
    }
}

fn render_object(keys: &Vec<Vec<char>>, vals: &Vec<u64>) -> (r: Vec<char>)
    requires
        keys@.len() == vals@.len(),
    ensures
        r@ == json_object(keys@.map_values(|k: Vec<char>| k@), vals@),
{
    let ghost ks = keys@.map_values(|k: Vec<char>| k@);
    let mut out: Vec<char> = Vec::new();
    out.push('{');
    let mut i: usize = 0;
    while i < keys.len()
        invariant
            keys@.len() == vals@.len(),
            ks == keys@.map_values(|k: Vec<char>| k@),
            0 <= i <= keys@.len(),
            out@ == seq!['{'] + json_members(ks.subrange(0, i as int), vals@.subrange(0, i as int)),
        decreases keys@.len() - i,
    {
        let ghost before = out@;
        if i > 0 {
            out.push(',');
        }
        out.push('"');
        push_all(&mut out, &keys[i]);
        out.push('"');
        out.push(':');
        push_decimal(&mut out, vals[i]);
        proof {
            let k2 = ks.subrange(0, i + 1);
            let v2 = vals@.subrange(0, i + 1);
            assert(k2.drop_last() =~= ks.subrange(0, i as int));
            assert(v2.subrange(0, i as int) =~= vals@.subrange(0, i as int));
            assert(k2.last() == keys@[i as int]@);
            if i == 0 {
                assert(out@ =~= seq!['{'] + json_members(k2, v2));
            } else {
                assert(out@ =~= seq!['{'] + json_members(k2, v2));
            }
        }
        i += 1;
    }
    out.push('}');
    proof {
        assert(ks.subrange(0, i as int) =~= ks);
        assert(vals@.subrange(0, i as int) =~= vals@);
    }
    out
}

fn key_x() -> (r: Vec<char>)
    ensures
        r@ == seq!['x'],
{
    let r = vec!['x'];
    assert(r@ =~= seq!['x']);
    r
}

impl RegState {
    /// The architecture of the snapshot.
    pub open spec fn spec_arch(&self) -> Arch {
        match self {
            RegState::X86_64(_) => Arch::X86_64,
            RegState::AArch64(_) => Arch::AArch64,
        }
    }

    /// The program counter.
    pub open spec fn spec_pc(&self) -> u64 {
        match self {
            RegState::X86_64(t) => t.rip,
            RegState::AArch64(t) => t.pc,
        }
    }

    /// The stack pointer.
    pub open spec fn spec_sp(&self) -> u64 {
        match self {
            RegState::X86_64(t) => t.rsp,
            RegState::AArch64(t) => t.sp,
        }
    }

    pub fn arch(&self) -> (r: Arch)
        ensures
            r == self.spec_arch(),
    {
        match self {
            RegState::X86_64(_) => Arch::X86_64,
            RegState::AArch64(_) => Arch::AArch64,
        }
    }

    pub fn pc(&self) -> (r: u64)
        ensures
            r == self.spec_pc(),
    {
        match self {
            RegState::X86_64(t) => t.rip,
            RegState::AArch64(t) => t.pc,
        }
    }

    pub fn sp(&self) -> (r: u64)
        ensures
            r == self.spec_sp(),
    {
        match self {
            RegState::X86_64(t) => t.get_sp(),
            RegState::AArch64(t) => t.get_sp(),
        }
    }

    /// The register dump as a JSON object with the architecture's fixed key order.
    pub fn regs_json(&self) -> (r: String)
        ensures
            r@ == regs_json(*self),
    {
        match self {
            RegState::X86_64(t) => {
                let keys: Vec<Vec<char>> = vec![
                    vec!['r', 'a', 'x'],
                    vec!['r', 'b', 'x'],
                    vec!['r', 'c', 'x'],
                    vec!['r', 'd', 'x'],
                    vec!['r', 'd', 'i'],
                    vec!['r', 's', 'i'],
                    vec!['r', 'b', 'p'],
                    vec!['r', 's', 'p'],
                    vec!['r', '8'],
                    vec!['r', '9'],
                    vec!['r', '1', '0'],
                    vec!['r', '1', '1'],
                    vec!['r', '1', '2'],
                    vec!['r', '1', '3'],
                    vec!['r', '1', '4'],
                    vec!['r', '1', '5'],
                    vec!['r', 'i', 'p'],
                    vec!['r', 'f', 'l', 'a', 'g', 's'],
                ];
                let vals: Vec<u64> = vec![
                    t.rax, t.rbx, t.rcx, t.rdx, t.rdi, t.rsi, t.rbp, t.rsp,
                    t.r8, t.r9, t.r10, t.r11, t.r12, t.r13, t.r14, t.r15,
                    t.rip, t.rflags,
                ];
                let out = render_object(&keys, &vals);
                proof {
                    let ks = keys@.map_values(|k: Vec<char>| k@);
                    assert(ks =~= x86_keys());
                    assert(vals@ =~= x86_values(*t));
                }
                string_from_chars(&out)
            },
            RegState::AArch64(t) => {
                let mut keys: Vec<Vec<char>> = Vec::new();
                let mut vals: Vec<u64> = Vec::new();
                let mut i: usize = 0;
                while i < 29
                    invariant
                        0 <= i <= 29,
                        keys@.len() == i,
                        vals@.len() == i,
                        forall|j: int| 0 <= j < i ==> #[trigger] keys@[j]@ == seq!['x'] + decimal(j as nat),
                        forall|j: int| 0 <= j < i ==> #[trigger] vals@[j] == t.x@[j],
                    decreases 29 - i,
                {
                    let mut k = key_x();
                    push_decimal(&mut k, i as u64);
                    keys.push(k);
                    vals.push(t.x[i]);
                    i += 1;
                }
                keys.push(vec!['f', 'p']);
                keys.push(vec!['l', 'r']);
                keys.push(vec!['s', 'p']);
                keys.push(vec!['p', 'c']);
                keys.push(vec!['c', 'p', 's', 'r']);
                vals.push(t.fp);
                vals.push(t.lr);
                vals.push(t.sp);
                vals.push(t.pc);
                vals.push(t.cpsr as u64);
                let out = render_object(&keys, &vals);
                proof {
                    let ks = keys@.map_values(|k: Vec<char>| k@);
                    assert(ks =~= arm_keys());
                    assert(vals@ =~= arm_values(*t));
                }
                string_from_chars(&out)
            },
        }
    }
}

} // verus!
