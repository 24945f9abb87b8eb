use tdb::rules::{classify_exec, extract_memory_address, next_depth_exec, window_base_exec, InsnClass};
use tdb::storage::{MemChange, TraceEntry};
use tdb::thread_state::{arm_thread_state64_t, x86_thread_state64_t, Arch, RegState};
use tdb::tracer::{Action, Event, StepError, Tracer};

struct FakeTask {
    pc: u64,
    sp: u64,
    x: [u64; 29],
    mem: Vec<(u64, u8)>,
    suspends: u32,
    resumes: u32,
    zero_reads: bool,
    failing_reads: bool,
    x86: bool,
}

impl FakeTask {
    fn new(pc: u64, sp: u64) -> FakeTask {
        FakeTask { pc, sp, x: [0; 29], mem: Vec::new(), suspends: 0, resumes: 0, zero_reads: false, failing_reads: false, x86: false }
    }

    fn poke(&mut self, addr: u64, bytes: &[u8]) {
        for (i, b) in bytes.iter().enumerate() {
            let a = addr + i as u64;
            self.mem.retain(|(k, _)| *k != a);
            self.mem.push((a, *b));
        }
    }

    fn peek(&self, addr: u64) -> u8 {
        self.mem.iter().find(|(k, _)| *k == addr).map(|(_, v)| *v).unwrap_or(0)
    }

    fn regs(&self) -> RegState {
        if self.x86 {
            return RegState::X86_64(x86_thread_state64_t {
                rax: 0, rbx: 0, rcx: 0, rdx: 0, rdi: 0, rsi: 0, rbp: 0, rsp: self.sp,
                r8: 0, r9: 0, r10: 0, r11: 0, r12: 0, r13: 0, r14: 0, r15: 0,
                rip: self.pc, rflags: 0x202, cs: 0, fs: 0, gs: 0,
            });
        }
        RegState::AArch64(arm_thread_state64_t { x: self.x, fp: 0, lr: 0, sp: self.sp, pc: self.pc, cpsr: 0, pad: 0 })
    }

    fn read(&self, addr: u64, len: usize) -> Result<Vec<u8>, i32> {
        if self.failing_reads {
            return Err(1);
        }
        if self.zero_reads {
            return Ok(Vec::new());
        }
        Ok((0..len as u64).map(|i| self.peek(addr + i)).collect())
    }
}

fn run_step(t: &mut Tracer, task: &mut FakeTask) -> Result<TraceEntry, StepError> {
    let mut a = t.single_step();
    loop {
        let ev = match a {
            Action::Finished(r) => return r,
            Action::Suspend => {
                task.suspends += 1;
                Event::Suspended(Ok(()))
            }
            Action::ListThreads => Event::Threads(Ok(vec![7])),
            Action::ReadRegs(_) => Event::Regs(Ok(task.regs())),
            Action::ReadMemory(addr, len) => Event::Memory(task.read(addr, len)),
            Action::Resume => {
                task.resumes += 1;
                Event::Resumed(Ok(()))
            }
        };
        assert!(t.expects(&ev));
        a = t.on_event(ev);
    }
}

const MOV_X0_1: [u8; 4] = [0x20, 0x00, 0x80, 0xd2];
const BL_0X2000_AT_0X1004: [u8; 4] = [0xff, 0x03, 0x00, 0x94];
const RET: [u8; 4] = [0xc0, 0x03, 0x5f, 0xd6];
const STUR_X0_SP_M8: [u8; 4] = [0xe0, 0x83, 0x1f, 0xf8];

#[test]
fn first_step_records_mov() {
    let mut task = FakeTask::new(0x1000, 0x7000);
    task.poke(0x1000, &MOV_X0_1);
    let mut t = Tracer::new("trace.tdb");
    let e = run_step(&mut t, &mut task).unwrap();
    assert_eq!(e.step, 0);
    assert_eq!(e.pc, 0x1000);
    assert!(e.insn_text.starts_with("mov"));
    assert_eq!(e.insn_bytes, MOV_X0_1.to_vec());
    assert!(e.mem_changes.is_empty());
    assert_eq!(t.step_count(), 1);
    assert_eq!(t.db().count(), 1);
}

#[test]
fn call_then_return_annotated() {
    let mut task = FakeTask::new(0x1000, 0x7000);
    task.poke(0x1000, &MOV_X0_1);
    task.poke(0x1004, &BL_0X2000_AT_0X1004);
    task.poke(0x2000, &RET);
    let mut t = Tracer::new("trace.tdb");
    run_step(&mut t, &mut task).unwrap();
    task.pc = 0x1004;
    let e2 = run_step(&mut t, &mut task).unwrap();
    assert!(e2.insn_text.ends_with("; CALL [depth:1]"), "{}", e2.insn_text);
    assert_eq!(t.call_depth(), 1);
    task.pc = 0x2000;
    let e3 = run_step(&mut t, &mut task).unwrap();
    assert!(e3.insn_text.ends_with("; RETURN [depth:0]"), "{}", e3.insn_text);
    assert_eq!(t.call_depth(), 0);
    task.pc = 0x2000;
    let e4 = run_step(&mut t, &mut task).unwrap();
    assert!(e4.insn_text.ends_with("; RETURN [depth:0]"));
    assert_eq!(t.call_depth(), 0);
    let all = t.db().get_all();
    let steps: Vec<u64> = all.iter().map(|e| e.step).collect();
    assert_eq!(steps, vec![0, 1, 2, 3]);
}

#[test]
fn stack_byte_flip_is_reported() {
    let mut task = FakeTask::new(0x1000, 0x7000);
    task.poke(0x1000, &STUR_X0_SP_M8);
    let mut t = Tracer::new("trace.tdb");
    let e1 = run_step(&mut t, &mut task).unwrap();
    assert!(e1.mem_changes.is_empty());
    task.poke(0x7000 - 8, &[0xff]);
    let e2 = run_step(&mut t, &mut task).unwrap();
    assert!(e2.mem_changes.contains(&MemChange { addr: 0x7000 - 8, old_val: 0x00, new_val: 0xff }), "{:?}", e2.mem_changes);
    for c in &e2.mem_changes {
        assert_ne!(c.old_val, c.new_val);
    }
}

#[test]
fn first_entry_has_no_changes_even_after_moving_stack() {
    let mut task = FakeTask::new(0x1000, 0x7080);
    task.poke(0x1000, &STUR_X0_SP_M8);
    task.poke(0x7000, &[1, 2, 3]);
    let mut t = Tracer::new("trace.tdb");
    let e = run_step(&mut t, &mut task).unwrap();
    assert!(e.mem_changes.is_empty());
}

#[test]
fn zero_byte_read_fails_without_advancing() {
    let mut task = FakeTask::new(0x1000, 0x7000);
    task.zero_reads = true;
    let mut t = Tracer::new("trace.tdb");
    let r = run_step(&mut t, &mut task);
    assert_eq!(r.unwrap_err(), StepError::Unmapped);
    assert_eq!(t.step_count(), 0);
    assert_eq!(t.db().count(), 0);
    assert_eq!(task.suspends, task.resumes);
}

#[test]
fn failures_always_resume_the_task() {
    let mut task = FakeTask::new(0x1000, 0x7000);
    task.failing_reads = true;
    let mut t = Tracer::new("trace.tdb");
    for _ in 0..11 {
        assert_eq!(run_step(&mut t, &mut task).unwrap_err(), StepError::Unmapped);
        assert_eq!(task.suspends, task.resumes);
    }
    assert_eq!(t.db().count(), 0);
    task.failing_reads = false;
    task.poke(0x1000, &MOV_X0_1);
    run_step(&mut t, &mut task).unwrap();
    assert_eq!(task.suspends, task.resumes);
    assert_eq!(t.db().count(), 1);
}

#[test]
fn undecodable_bytes_are_bad_instruction() {
    let mut task = FakeTask::new(0x1000, 0x7000);
    task.poke(0x1000, &[0xff, 0xff, 0xff, 0xff]);
    let mut t = Tracer::new("trace.tdb");
    let r = run_step(&mut t, &mut task);
    assert_eq!(r.unwrap_err(), StepError::BadInstruction);
    assert_eq!(task.suspends, task.resumes);
    assert_eq!(t.step_count(), 0);
}

#[test]
fn no_threads_resumes_and_fails() {
    let mut t = Tracer::new("trace.tdb");
    assert!(matches!(t.single_step(), Action::Suspend));
    assert!(matches!(t.on_event(Event::Suspended(Ok(()))), Action::ListThreads));
    assert!(matches!(t.on_event(Event::Threads(Ok(vec![]))), Action::Resume));
    match t.on_event(Event::Resumed(Ok(()))) {
        Action::Finished(Err(e)) => assert_eq!(e, StepError::NoThreads),
        _ => panic!("expected a finished step"),
    }
}

#[test]
fn failed_suspend_finishes_at_once() {
    let mut t = Tracer::new("trace.tdb");
    t.single_step();
    match t.on_event(Event::Suspended(Err(5))) {
        Action::Finished(Err(e)) => assert_eq!(e, StepError::Task(5)),
        _ => panic!("expected a finished step"),
    }
}

#[test]
fn classification_tables() {
    let v = |s: &str| s.chars().collect::<Vec<char>>();
    assert_eq!(classify_exec(Arch::X86_64, &v("call")), InsnClass::Call);
    assert_eq!(classify_exec(Arch::X86_64, &v("ret")), InsnClass::Return);
    assert_eq!(classify_exec(Arch::X86_64, &v("retq")), InsnClass::Return);
    assert_eq!(classify_exec(Arch::X86_64, &v("bl")), InsnClass::Other);
    assert_eq!(classify_exec(Arch::AArch64, &v("bl")), InsnClass::Call);
    assert_eq!(classify_exec(Arch::AArch64, &v("blr")), InsnClass::Call);
    assert_eq!(classify_exec(Arch::AArch64, &v("ret")), InsnClass::Return);
    assert_eq!(classify_exec(Arch::AArch64, &v("retq")), InsnClass::Other);
    assert_eq!(next_depth_exec(0, InsnClass::Return), 0);
    assert_eq!(next_depth_exec(3, InsnClass::Return), 2);
    assert_eq!(next_depth_exec(3, InsnClass::Call), 4);
    assert_eq!(next_depth_exec(3, InsnClass::Other), 3);
}

#[test]
fn window_base_saturates() {
    assert_eq!(window_base_exec(100), 0);
    assert_eq!(window_base_exec(0x7000), 0x7000 - 128);
}

#[test]
fn operand_probe_targets() {
    let v = |s: &str| s.chars().collect::<Vec<char>>();
    let mut x = [0u64; 29];
    x[0] = 0x10;
    x[1] = 0x20;
    let arm = RegState::AArch64(arm_thread_state64_t { x, fp: 0, lr: 0, sp: 0x30, pc: 0, cpsr: 0, pad: 0 });
    assert_eq!(extract_memory_address(&arm, &v("x2, [x0]")), Some(0x10));
    assert_eq!(extract_memory_address(&arm, &v("x2, [x1]")), Some(0x20));
    assert_eq!(extract_memory_address(&arm, &v("x0, [sp, #8]")), Some(0x30));
    assert_eq!(extract_memory_address(&arm, &v("x0, [x3]")), None);
    let x86 = RegState::X86_64(x86_thread_state64_t {
        rax: 1, rbx: 2, rcx: 0, rdx: 0, rdi: 0, rsi: 0, rbp: 0, rsp: 3,
        r8: 0, r9: 0, r10: 0, r11: 0, r12: 0, r13: 0, r14: 0, r15: 0,
        rip: 0, rflags: 0, cs: 0, fs: 0, gs: 0,
    });
    assert_eq!(extract_memory_address(&x86, &v("qword ptr [rax], 1")), Some(1));
    assert_eq!(extract_memory_address(&x86, &v("[rbx], ecx")), Some(2));
    assert_eq!(extract_memory_address(&x86, &v("qword ptr [rsp + 8], rax")), Some(3));
    assert_eq!(extract_memory_address(&x86, &v("rax, rbx")), None);
}

#[test]
fn x86_call_and_return() {
    let mut task = FakeTask::new(0x1000, 0x7000);
    task.x86 = true;
    task.poke(0x1000, &[0xe8, 0xfb, 0x0f, 0x00, 0x00]);
    task.poke(0x2000, &[0xc3]);
    let mut t = Tracer::new("trace.tdb");
    let e1 = run_step(&mut t, &mut task).unwrap();
    assert!(e1.insn_text.starts_with("call"), "{}", e1.insn_text);
    assert!(e1.insn_text.ends_with("; CALL [depth:1]"));
    assert_eq!(e1.insn_bytes, vec![0xe8, 0xfb, 0x0f, 0x00, 0x00]);
    assert!(e1.regs.starts_with("{\"rax\":0,"));
    assert!(e1.regs.ends_with("\"rip\":4096,\"rflags\":514}"));
    task.pc = 0x2000;
    let e2 = run_step(&mut t, &mut task).unwrap();
    assert!(e2.insn_text.ends_with("; RETURN [depth:0]"), "{}", e2.insn_text);
    assert_eq!(e2.step, 1);
}

#[test]
fn probe_and_window_report_a_byte_once() {
    let mut task = FakeTask::new(0x1000, 0x7080);
    task.poke(0x1000, &STUR_X0_SP_M8);
    let mut t = Tracer::new("trace.tdb");
    run_step(&mut t, &mut task).unwrap();
    task.poke(0x7080, &[0x5a]);
    let e = run_step(&mut t, &mut task).unwrap();
    let hits: Vec<&MemChange> = e.mem_changes.iter().filter(|c| c.addr == 0x7080).collect();
    assert_eq!(hits.len(), 1, "{:?}", e.mem_changes);
    assert_eq!(*hits[0], MemChange { addr: 0x7080, old_val: 0, new_val: 0x5a });
}

#[test]
fn probe_sees_write_outside_stack_window() {
    let mut task = FakeTask::new(0x1000, 0x7080);
    task.poke(0x1000, &STUR_X0_SP_M8);
    task.poke(0x2000, &[0x01, 0x00, 0x00, 0xf9]);
    let mut t = Tracer::new("trace.tdb");
    run_step(&mut t, &mut task).unwrap();
    task.pc = 0x2000;
    task.sp = 0x9080;
    task.x[0] = 0x7010;
    task.poke(0x7010, &[0xaa]);
    let e = run_step(&mut t, &mut task).unwrap();
    assert!(e.insn_text.starts_with("str"), "{}", e.insn_text);
    assert_eq!(e.mem_changes, vec![MemChange { addr: 0x7010, old_val: 0, new_val: 0xaa }]);
}
