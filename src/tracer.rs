use vstd::prelude::*;
use std::collections::HashMap;
use crate::disasm::{disasm_first, first_insn};
use crate::rules::{
    block_of, block_of_exec, changes_differ, InsnClass, classify, classify_exec, extract_memory_address,
    insn_text, insn_text_exec, lemma_window_diff_differ, next_depth, next_depth_exec, probe_change,
    probe_change_exec, probe_target, probe_wanted, probe_wanted_exec, push_stack_changes,
    stack_changes, stack_window_wanted, stack_window_wanted_exec, window_base, window_base_exec,
    WINDOW_LEN,
};
use crate::storage::{lemma_lookup_absent, lemma_lookup_at, lookup, EntryView, MemChange, TraceDb, TraceEntry};
use crate::text::string_from_chars;
use crate::thread_state::{regs_json, Arch, RegState};

verus! {

/// Why a step produced no entry.
#[derive(Clone, Copy, Debug, PartialEq, Eq, Structural)]
pub enum StepError {
    /// A task or thread call failed with this kernel return code.
    Task(i32),
    /// The task has no threads.
    NoThreads,
    /// Memory at the program counter could not be read.
    Unmapped,
    /// The bytes at the program counter hold no instruction.
    BadInstruction,
    /// The step counter cannot grow any further.
    Exhausted,
}

/// What the task did when asked for the last action.
pub enum Event {
    Suspended(Result<(), i32>),
    Threads(Result<Vec<u32>, i32>),
    Regs(Result<RegState, i32>),
    Memory(Result<Vec<u8>, i32>),
    Resumed(Result<(), i32>),
}

/// What the engine asks of the task next.
pub enum Action {
    /// Suspend the whole task.
    Suspend,
    /// List the task's threads.
    ListThreads,
    /// Read the registers of this thread.
    ReadRegs(u32),
    /// Read up to this many bytes at this address.
    ReadMemory(u64, usize),
    /// Resume the task.
    Resume,
    /// The step is over, with this outcome.
    Finished(Result<TraceEntry, StepError>),
}

/// A step that has decoded its instruction and is gathering memory changes.
pub struct Pending {
    pub regs: RegState,
    pub pc: u64,
    pub sp: u64,
    pub insn_bytes: Vec<u8>,
    pub text: Vec<char>,
    pub depth: u64,
    /// The byte the operand probe reads, if any.
    pub probe: Option<u64>,
    /// Whether a block holding the probed byte was cached before this step,
    /// so that the probe has an earlier snapshot to compare with.
    pub probe_prior: bool,
    pub changes: Vec<MemChange>,
}

/// Where the engine stands within a step.
pub enum Phase {
    Idle,
    Suspending,
    ListingThreads,
    ReadingRegs,
    ReadingCode(RegState),
    ReadingStack(Pending, u64),
    ReadingProbe(Pending),
    Releasing(Result<TraceEntry, StepError>),
}

/// The entry a pending step records as step `step`.
pub open spec fn entry_of(p: Pending, step: u64) -> EntryView {
    EntryView {
        step,
        pc: p.pc,
        insn_bytes: p.insn_bytes@,
        insn_text: p.text@,
        regs: regs_json(p.regs),
        mem_changes: p.changes@,
    }
}

/// The task is held suspended in this phase, with no resumption asked for yet.
pub open spec fn holds_task(ph: Phase) -> bool {
    match ph {
        Phase::Idle | Phase::Suspending | Phase::Releasing(_) => false,
        _ => true,
    }
}

/// The event that this phase waits for.
pub open spec fn awaits(ph: Phase, ev: Event) -> bool {
    match ph {
        Phase::Idle => false,
        Phase::Suspending => ev is Suspended,
        Phase::ListingThreads => ev is Threads,
        Phase::ReadingRegs => ev is Regs,
        Phase::ReadingCode(_) | Phase::ReadingStack(..) | Phase::ReadingProbe(_) => ev is Memory,
        Phase::Releasing(_) => ev is Resumed,
    }
}

/// The cached window at `base`, as a byte sequence.
pub open spec fn cached(cache: Map<u64, Vec<u8>>, base: u64) -> Option<Seq<u8>> {
    if cache.contains_key(base) {
        Some(cache[base]@)
    } else {
        None
    }
}

/// The trace engine: sampled single-stepping of one task, driven one event at a time.
pub struct Tracer {
    db: TraceDb,
    step_count: u64,
    call_depth: u64,
    last_sp: u64,
    memory_cache: HashMap<u64, Vec<u8>>,
    phase: Phase,
    suspends: Ghost<nat>,
    resumes: Ghost<nat>,
}

impl Tracer {
    pub closed spec fn spec_db(&self) -> TraceDb {
        self.db
    }

    pub closed spec fn spec_step_count(&self) -> u64 {
        self.step_count
    }

    pub closed spec fn spec_call_depth(&self) -> u64 {
        self.call_depth
    }

    pub closed spec fn spec_last_sp(&self) -> u64 {
        self.last_sp
    }

    pub closed spec fn spec_cache(&self) -> Map<u64, Vec<u8>> {
        self.memory_cache@
    }

    pub closed spec fn spec_phase(&self) -> Phase {
        self.phase
    }

    /// How many suspensions of the task have taken effect.
    pub closed spec fn suspends(&self) -> nat {
        self.suspends@
    }

    /// How many resumptions of the task have been asked for.
    pub closed spec fn resumes(&self) -> nat {
        self.resumes@
    }

    /// The recorded trace agrees with the counters.
    pub closed spec fn counts_ok(&self) -> bool {
        &&& self.db.wf()
        &&& self.db@.len() == self.step_count
        &&& forall|i: int| 0 <= i < self.db@.len() ==> (#[trigger] self.db@[i]).step == i
        &&& forall|i: int|
            0 <= i < self.db@.len() ==> changes_differ((#[trigger] self.db@[i]).mem_changes)
        &&& self.call_depth <= self.step_count
    }

    /// The engine's invariant.
    pub closed spec fn wf(&self) -> bool {
        &&& self.counts_ok()
        &&& (!(self.phase is Idle) && !(self.phase is Releasing)) ==> self.step_count < u64::MAX
        &&& self.suspends@ == self.resumes@ + if holds_task(self.phase) {
            1nat
        } else {
            0nat
        }
        &&& (self.step_count == 0 && !(self.phase is ReadingProbe)) ==> self.memory_cache@.is_empty()
        &&& match self.phase {
            Phase::ReadingStack(p, base) => Self::pending_ok(p, self.step_count, self.call_depth),
            Phase::ReadingProbe(p) => Self::pending_ok(p, self.step_count, self.call_depth)
                && p.probe is Some,
            _ => true,
        }
    }

    pub closed spec fn pending_ok(p: Pending, step_count: u64, call_depth: u64) -> bool {
        &&& step_count < u64::MAX
        &&& p.depth <= call_depth + 1
        &&& changes_differ(p.changes@)
        &&& step_count == 0 ==> p.changes@.len() == 0 && !p.probe_prior
    }

    /// No step is under way.
    pub open spec fn idle(&self) -> bool {
        self.spec_phase() is Idle
    }

    /// An engine with an empty trace bound to `db_path`.
    pub fn new(db_path: &str) -> (r: Tracer)
        ensures
            r.wf(),
            r.idle(),
            r.spec_db()@ == Seq::<EntryView>::empty(),
            r.spec_db().spec_path() == db_path@,
            r.spec_step_count() == 0,
            r.spec_call_depth() == 0,
            r.spec_last_sp() == 0,
            r.spec_cache().is_empty(),
            r.suspends() == 0,
            r.resumes() == 0,
    {
        Tracer {
            db: TraceDb::new(db_path),
            step_count: 0,
            call_depth: 0,
            last_sp: 0,
            memory_cache: HashMap::new(),
            phase: Phase::Idle,
            suspends: Ghost(0),
            resumes: Ghost(0),
        }
    }

    /// The trace recorded so far.
    pub fn db(&self) -> (r: &TraceDb)
        ensures
            *r == self.spec_db(),
    {
        &self.db
    }

    /// The number of the next step to record.
    pub fn step_count(&self) -> (r: u64)
        ensures
            r == self.spec_step_count(),
    {
        self.step_count
    }

    /// The number of calls not yet matched by a return.
    pub fn call_depth(&self) -> (r: u64)
        ensures
            r == self.spec_call_depth(),
    {
        self.call_depth
    }

    /// Whether `ev` is what the engine waits for.
    pub fn expects(&self, ev: &Event) -> (r: bool)
        ensures
            r == awaits(self.spec_phase(), *ev),
    {
        match (&self.phase, ev) {
            (Phase::Suspending, Event::Suspended(_)) => true,
            (Phase::ListingThreads, Event::Threads(_)) => true,
            (Phase::ReadingRegs, Event::Regs(_)) => true,
            (Phase::ReadingCode(_), Event::Memory(_)) => true,
            (Phase::ReadingStack(..), Event::Memory(_)) => true,
            (Phase::ReadingProbe(_), Event::Memory(_)) => true,
            (Phase::Releasing(_), Event::Resumed(_)) => true,
            _ => false,
        }
    }

    /// Starts one step: the first action is to suspend the task.
    pub fn single_step(&mut self) -> (r: Action)
        requires
            old(self).wf(),
            old(self).idle(),
        ensures
            final(self).wf(),
            final(self).spec_db() == old(self).spec_db(),
            final(self).spec_step_count() == old(self).spec_step_count(),
            final(self).spec_call_depth() == old(self).spec_call_depth(),
            final(self).spec_last_sp() == old(self).spec_last_sp(),
            final(self).spec_cache() == old(self).spec_cache(),
            final(self).suspends() == old(self).suspends(),
            final(self).resumes() == old(self).resumes(),
            r is Finished ==> final(self).idle() && final(self).suspends() == final(self).resumes(),
            if old(self).spec_step_count() == u64::MAX {
                r == Action::Finished(Err(StepError::Exhausted)) && final(self).idle()
            } else {
                r is Suspend && final(self).spec_phase() is Suspending
            },
    {
        if self.step_count == u64::MAX {
            return Action::Finished(Err(StepError::Exhausted));
        }
        self.phase = Phase::Suspending;
        Action::Suspend
    }

    /// Gives up the step with `e`: the task is resumed first.
    fn release_with(&mut self, e: StepError) -> (r: Action)
        requires
            holds_task(old(self).phase),
            old(self).suspends@ == old(self).resumes@ + 1,
        ensures
            final(self).phase == Phase::Releasing(Err(e)),
            final(self).resumes@ == old(self).resumes@ + 1,
            final(self).suspends@ == old(self).suspends@,
            final(self).db == old(self).db,
            final(self).step_count == old(self).step_count,
            final(self).call_depth == old(self).call_depth,
            final(self).last_sp == old(self).last_sp,
            final(self).memory_cache == old(self).memory_cache,
            r is Resume,
    {
        self.phase = Phase::Releasing(Err(e));
        proof {
            self.resumes@ = self.resumes@ + 1;
        }
        Action::Resume
    }

    /// Records the pending step and resumes the task.
    fn record(&mut self, p: Pending) -> (r: Action)
        requires
            old(self).counts_ok(),
            Self::pending_ok(p, old(self).step_count, old(self).call_depth),
        ensures
            final(self).db@ == old(self).db@.push(entry_of(p, old(self).step_count)),
            final(self).counts_ok(),
            final(self).db.spec_path() == old(self).db.spec_path(),
            final(self).step_count == old(self).step_count + 1,
            final(self).call_depth == p.depth,
            final(self).last_sp == p.sp,
            final(self).memory_cache == old(self).memory_cache,
            final(self).resumes@ == old(self).resumes@ + 1,
            final(self).suspends@ == old(self).suspends@,
            final(self).phase matches Phase::Releasing(Ok(e)) && e@ == entry_of(p, old(self).step_count),
            r is Resume,
    {
        let text = string_from_chars(&p.text);
        let regs = p.regs.regs_json();
        let entry = TraceEntry {
            step: self.step_count,
            pc: p.pc,
            insn_bytes: p.insn_bytes,
            insn_text: text,
            regs,
            mem_changes: p.changes,
        };
        proof {
            let s = old(self).db@;
            if s.len() > 0 {
                assert(s.last().step == s.len() - 1);
            }
        }
        self.db.insert(entry.duplicate());
        proof {
            let s = self.db@;
            assert forall|i: int| 0 <= i < s.len() implies (#[trigger] s[i]).step == i
                && changes_differ(s[i].mem_changes) by {
                if i < s.len() - 1 {
                    assert(s[i] == old(self).db@[i]);
                }
            }
        }
        self.step_count = self.step_count + 1;
        self.call_depth = p.depth;
        self.last_sp = p.sp;
        self.phase = Phase::Releasing(Ok(entry));
        proof {
            self.resumes@ = self.resumes@ + 1;
        }
        Action::Resume
    }

    /// Moves on to the byte probe, or records the step when there is none.
    fn probe_or_record(&mut self, p: Pending) -> (r: Action)
        requires
            old(self).counts_ok(),
            Self::pending_ok(p, old(self).step_count, old(self).call_depth),
        ensures
            p.probe matches Some(a) ==> {
                &&& final(self).phase == Phase::ReadingProbe(p)
                &&& r == Action::ReadMemory(a, 1)
                &&& final(self).db == old(self).db
                &&& final(self).step_count == old(self).step_count
                &&& final(self).call_depth == old(self).call_depth
                &&& final(self).last_sp == old(self).last_sp
                &&& final(self).resumes == old(self).resumes
                &&& final(self).counts_ok()
            },
            p.probe is None ==> {
                &&& final(self).db@ == old(self).db@.push(entry_of(p, old(self).step_count))
                &&& final(self).counts_ok()
                &&& final(self).step_count == old(self).step_count + 1
                &&& final(self).call_depth == p.depth
                &&& final(self).last_sp == p.sp
                &&& final(self).resumes@ == old(self).resumes@ + 1
                &&& final(self).phase matches Phase::Releasing(Ok(e)) && e@ == entry_of(
                    p,
                    old(self).step_count,
                )
                &&& r is Resume
            },
            final(self).db.spec_path() == old(self).db.spec_path(),
            final(self).memory_cache == old(self).memory_cache,
            final(self).suspends == old(self).suspends,
    {
        match p.probe {
            Some(a) => {
                self.phase = Phase::ReadingProbe(p);
                Action::ReadMemory(a, 1)
            },
            None => self.record(p),
        }
    }
}


/// A pending step as built from the decoded instruction `(m, ops, bytes)` of
/// snapshot `s`, with the call depth, last stack pointer and cache as they
/// stood before it.
pub open spec fn decoded_as(
    p: Pending,
    s: RegState,
    m: Seq<char>,
    ops: Seq<char>,
    bytes: Seq<u8>,
    depth: u64,
    cache: Map<u64, Vec<u8>>,
) -> bool {
    let c = classify(s.spec_arch(), m);
    let d = next_depth(depth, c);
    let probe = if probe_wanted(m) {
        probe_target(s, ops)
    } else {
        None
    };
    &&& p.regs == s
    &&& p.pc == s.spec_pc()
    &&& p.sp == s.spec_sp()
    &&& p.insn_bytes@ == bytes
    &&& p.depth == d
    &&& p.text@ == insn_text(m, ops, c, d as nat)
    &&& p.probe == probe
    &&& p.probe_prior == match probe {
        Some(a) => cache.contains_key(block_of(a)),
        None => false,
    }
    &&& p.changes@.len() == 0
}

/// What the byte probe adds to a pending step, given the read's outcome: the
/// byte is compared with the block holding it in `cache`, the cache as it
/// stands once this step's stack window is stored. Only a block cached before
/// the step counts as an earlier snapshot.
pub open spec fn probe_more(p: Pending, cache: Map<u64, Vec<u8>>, res: Result<Vec<u8>, i32>) -> Seq<
    MemChange,
> {
    match res {
        Ok(now) => if p.probe_prior {
            match probe_change(p.probe->0, cached(cache, block_of(p.probe->0)), now@) {
                Some(ch) => seq![ch],
                None => Seq::empty(),
            }
        } else {
            Seq::empty()
        },
        Err(_) => Seq::empty(),
    }
}

/// `q` is `p` with `more` appended to its changes.
pub open spec fn extended(q: Pending, p: Pending, more: Seq<MemChange>) -> bool {
    &&& q.regs == p.regs
    &&& q.pc == p.pc
    &&& q.sp == p.sp
    &&& q.insn_bytes@ == p.insn_bytes@
    &&& q.depth == p.depth
    &&& q.text@ == p.text@
    &&& q.probe == p.probe
    &&& q.probe_prior == p.probe_prior
    &&& q.changes@ == p.changes@ + more
}

impl Tracer {
    /// What follows a pending step `p` once its stack window is settled: the
    /// byte probe when it has a target, else the step is recorded.
    pub open spec fn continues_with(old_t: Tracer, new_t: Tracer, p: Pending, r: Action) -> bool {
        match p.probe {
            Some(a) => {
                &&& new_t.spec_phase() == Phase::ReadingProbe(p)
                &&& r == Action::ReadMemory(a, 1)
                &&& new_t.spec_db() == old_t.spec_db()
                &&& new_t.spec_step_count() == old_t.spec_step_count()
                &&& new_t.spec_call_depth() == old_t.spec_call_depth()
                &&& new_t.spec_last_sp() == old_t.spec_last_sp()
            },
            None => Self::records(old_t, new_t, p, r),
        }
    }

    /// Nothing the engine keeps across steps has changed, but perhaps `last_sp`.
    pub open spec fn keeps_all_but_last_sp(old_t: Tracer, new_t: Tracer) -> bool {
        &&& new_t.spec_db() == old_t.spec_db()
        &&& new_t.spec_step_count() == old_t.spec_step_count()
        &&& new_t.spec_call_depth() == old_t.spec_call_depth()
        &&& new_t.spec_cache() == old_t.spec_cache()
    }

    /// Nothing the engine keeps across steps has changed.
    pub open spec fn keeps_all(old_t: Tracer, new_t: Tracer) -> bool {
        &&& Self::keeps_all_but_last_sp(old_t, new_t)
        &&& new_t.spec_last_sp() == old_t.spec_last_sp()
    }

    /// `p` is recorded as the next step and the task is resumed.
    pub open spec fn records(old_t: Tracer, new_t: Tracer, p: Pending, r: Action) -> bool {
        &&& new_t.spec_db()@ == old_t.spec_db()@.push(entry_of(p, old_t.spec_step_count()))
        &&& new_t.spec_step_count() == old_t.spec_step_count() + 1
        &&& new_t.spec_call_depth() == p.depth
        &&& new_t.spec_last_sp() == p.sp
        &&& new_t.spec_phase() matches Phase::Releasing(Ok(e)) && e@ == entry_of(p, old_t.spec_step_count())
        &&& r is Resume
    }

    /// Handles what the task reported for the last action and says what to do next.
    #[verifier::spinoff_prover]
    #[verifier::rlimit(40)]
    pub fn on_event(&mut self, ev: Event) -> (r: Action)
        requires
            old(self).wf(),
            awaits(old(self).spec_phase(), ev),
        ensures
            final(self).wf(),
            final(self).spec_db().spec_path() == old(self).spec_db().spec_path(),
            // a finished step leaves no suspension behind
            r is Finished ==> final(self).idle() && final(self).suspends() == final(self).resumes(),
            // entries are only ever appended, one per step, numbered in order
            final(self).spec_step_count() == old(self).spec_step_count() ==> final(self).spec_db()
                == old(self).spec_db(),
            final(self).spec_step_count() != old(self).spec_step_count() ==> {
                &&& final(self).spec_step_count() == old(self).spec_step_count() + 1
                &&& final(self).spec_db()@.drop_last() == old(self).spec_db()@
            },
            // a recorded entry reports only bytes that really changed
            final(self).spec_step_count() != old(self).spec_step_count() ==> changes_differ(
                final(self).spec_db()@.last().mem_changes,
            ),
            // the first entry of a session has no memory changes
            old(self).spec_step_count() == 0 && final(self).spec_step_count() == 1
                ==> final(self).spec_db()@[0].mem_changes.len() == 0,
            match (old(self).spec_phase(), ev) {
                (Phase::Suspending, Event::Suspended(Ok(()))) => {
                    &&& r is ListThreads
                    &&& final(self).spec_phase() is ListingThreads
                    &&& final(self).suspends() == old(self).suspends() + 1
                    &&& Self::keeps_all(*old(self), *final(self))
                },
                (Phase::Suspending, Event::Suspended(Err(c))) => {
                    &&& r == Action::Finished(Err(StepError::Task(c)))
                    &&& Self::keeps_all(*old(self), *final(self))
                },
                (Phase::ListingThreads, Event::Threads(res)) => {
                    &&& Self::keeps_all(*old(self), *final(self))
                    &&& match res {
                        Ok(v) => if v@.len() > 0 {
                            r == Action::ReadRegs(v@[0]) && final(self).spec_phase() is ReadingRegs
                        } else {
                            r is Resume && final(self).spec_phase() == Phase::Releasing(
                                Err(StepError::NoThreads),
                            )
                        },
                        Err(c) => r is Resume && final(self).spec_phase() == Phase::Releasing(
                            Err(StepError::Task(c)),
                        ),
                    }
                },
                (Phase::ReadingRegs, Event::Regs(res)) => match res {
                    Ok(s) => {
                        &&& r == Action::ReadMemory(s.spec_pc(), 16)
                        &&& final(self).spec_phase() == Phase::ReadingCode(s)
                        &&& final(self).spec_last_sp() == if old(self).spec_last_sp() == 0 {
                            s.spec_sp()
                        } else {
                            old(self).spec_last_sp()
                        }
                        &&& Self::keeps_all_but_last_sp(*old(self), *final(self))
                    },
                    Err(c) => {
                        &&& r is Resume
                        &&& final(self).spec_phase() == Phase::Releasing(Err(StepError::Task(c)))
                        &&& Self::keeps_all(*old(self), *final(self))
                    },
                },
                (Phase::ReadingCode(s), Event::Memory(res)) => match res {
                    Ok(code) => if code@.len() == 0 {
                        &&& r is Resume
                        &&& final(self).spec_phase() == Phase::Releasing(Err(StepError::Unmapped))
                        &&& final(self).spec_step_count() == old(self).spec_step_count()
                        &&& Self::keeps_all(*old(self), *final(self))
                    } else {
                        match first_insn(code@, s.spec_pc(), s.spec_arch()) {
                            None => {
                                &&& r is Resume
                                &&& final(self).spec_phase() == Phase::Releasing(
                                    Err(StepError::BadInstruction),
                                )
                                &&& Self::keeps_all(*old(self), *final(self))
                            },
                            Some((m, ops, bytes)) => exists|p: Pending|
                                {
                                    &&& decoded_as(
                                        p,
                                        s,
                                        m,
                                        ops,
                                        bytes,
                                        old(self).spec_call_depth(),
                                        old(self).spec_cache(),
                                    )
                                    &&& if stack_window_wanted(
                                        s.spec_sp(),
                                        old(self).spec_last_sp(),
                                        m,
                                    ) {
                                        &&& final(self).spec_phase() == Phase::ReadingStack(
                                            p,
                                            window_base(s.spec_sp()),
                                        )
                                        &&& r == Action::ReadMemory(
                                            window_base(s.spec_sp()),
                                            WINDOW_LEN,
                                        )
                                        &&& Self::keeps_all(*old(self), *final(self))
                                    } else {
                                        Self::continues_with(*old(self), *final(self), p, r)
                                    }
                                    &&& final(self).spec_cache() == old(self).spec_cache()
                                }
                            ,
                        }
                    },
                    Err(_) => {
                        &&& r is Resume
                        &&& final(self).spec_phase() == Phase::Releasing(Err(StepError::Unmapped))
                        &&& final(self).spec_step_count() == old(self).spec_step_count()
                        &&& Self::keeps_all(*old(self), *final(self))
                    },
                },
                (Phase::ReadingStack(p, base), Event::Memory(res)) => {
                    &&& final(self).spec_cache() == match res {
                        Ok(d) => old(self).spec_cache().insert(base, d),
                        Err(_) => old(self).spec_cache(),
                    }
                    &&& exists|q: Pending|
                        {
                            &&& extended(
                                q,
                                p,
                                match res {
                                    Ok(d) => stack_changes(base, cached(old(self).spec_cache(), base), d@),
                                    Err(_) => Seq::empty(),
                                },
                            )
                            &&& Self::continues_with(*old(self), *final(self), q, r)
                        }
                },
                (Phase::ReadingProbe(p), Event::Memory(res)) => {
                    &&& final(self).spec_cache() == old(self).spec_cache()
                    &&& exists|q: Pending|
                        extended(q, p, probe_more(p, old(self).spec_cache(), res)) && Self::records(
                            *old(self),
                            *final(self),
                            q,
                            r,
                        )
                },
                (Phase::Releasing(o), Event::Resumed(res)) => {
                    &&& final(self).idle()
                    &&& Self::keeps_all(*old(self), *final(self))
                    &&& r == Action::Finished(
                        match res {
                            Ok(()) => o,
                            Err(c) => Err(StepError::Task(c)),
                        },
                    )
                },
                _ => true,
            },
    {
        // the arms below that return `Exhausted` for an unexpected event are
        // unreachable: `awaits` pairs each phase with its one event
        let mut ph = Phase::Idle;
        core::mem::swap(&mut self.phase, &mut ph);
        assert(ph == old(self).phase);
        match ph {
            Phase::Idle => {
                // no event is awaited between steps: the precondition rules this out
                assert(!awaits(ph, ev));
                Action::Finished(Err(StepError::Exhausted))
            },
            Phase::Suspending => {
                match ev {
                    Event::Suspended(Ok(())) => {
                        self.phase = Phase::ListingThreads;
                        proof {
                            self.suspends@ = self.suspends@ + 1;
                        }
                        Action::ListThreads
                    },
                    Event::Suspended(Err(c)) => Action::Finished(Err(StepError::Task(c))),
                    _ => Action::Finished(Err(StepError::Exhausted)),
                }
            },
            Phase::ListingThreads => {
                self.phase = Phase::ListingThreads;
                match ev {
                    Event::Threads(Ok(v)) => {
                        if v.len() > 0 {
                            self.phase = Phase::ReadingRegs;
                            Action::ReadRegs(v[0])
                        } else {
                            self.release_with(StepError::NoThreads)
                        }
                    },
                    Event::Threads(Err(c)) => self.release_with(StepError::Task(c)),
                    _ => Action::Finished(Err(StepError::Exhausted)),
                }
            },
            Phase::ReadingRegs => {
                self.phase = Phase::ReadingRegs;
                match ev {
                    Event::Regs(Ok(s)) => {
                        let sp = s.sp();
                        if self.last_sp == 0 {
                            self.last_sp = sp;
                        }
                        let pc = s.pc();
                        self.phase = Phase::ReadingCode(s);
                        Action::ReadMemory(pc, 16)
                    },
                    Event::Regs(Err(c)) => self.release_with(StepError::Task(c)),
                    _ => Action::Finished(Err(StepError::Exhausted)),
                }
            },
            Phase::ReadingCode(s) => {
                self.phase = Phase::ReadingCode(s);
                match ev {
                    Event::Memory(Ok(code)) => {
                        if code.len() == 0 {
                            return self.release_with(StepError::Unmapped);
                        }
                        let ghost code0 = code@;
                        let r = self.decode_step(s, code);
                        proof {
                            match first_insn(code0, s.spec_pc(), s.spec_arch()) {
                                Some((m, ops, bytes)) => {
                                    let p = choose|p: Pending|
                                        {
                                            &&& decoded_as(
                                                p,
                                                s,
                                                m,
                                                ops,
                                                bytes,
                                                old(self).call_depth,
                                                old(self).memory_cache@,
                                            )
                                            &&& if stack_window_wanted(s.spec_sp(), old(self).last_sp, m) {
                                                &&& self.phase == Phase::ReadingStack(
                                                    p,
                                                    window_base(s.spec_sp()),
                                                )
                                                &&& r == Action::ReadMemory(window_base(s.spec_sp()), WINDOW_LEN)
                                                &&& self.db == old(self).db
                                                &&& self.step_count == old(self).step_count
                                            } else {
                                                Self::continues_with(*old(self), *self, p, r)
                                            }
                                        };
                                    assert(decoded_as(
                                        p,
                                        s,
                                        m,
                                        ops,
                                        bytes,
                                        old(self).spec_call_depth(),
                                        old(self).spec_cache(),
                                    ));
                                },
                                None => {},
                            }
                        }
                        r
                    },
                    Event::Memory(Err(_)) => self.release_with(StepError::Unmapped),
                    _ => Action::Finished(Err(StepError::Exhausted)),
                }
            },
            Phase::ReadingStack(p, base) => {
                match ev {
                    Event::Memory(res) => {
                        let ghost mid = *self;
                        let ghost res0 = res;
                        let ghost p0 = p;
                        let r = self.stack_read(p, base, res);
                        proof {
                            let more = match res0 {
                                Ok(d) => stack_changes(base, cached(old(self).memory_cache@, base), d@),
                                Err(_) => Seq::empty(),
                            };
                            let q = choose|q: Pending|
                                extended(q, p0, more) && Self::continues_with(mid, *self, q, r);
                            assert(Self::continues_with(*old(self), *self, q, r));
                        }
                        r
                    },
                    _ => Action::Finished(Err(StepError::Exhausted)),
                }
            },
            Phase::ReadingProbe(p) => {
                match ev {
                    Event::Memory(res) => {
                        let ghost mid = *self;
                        let ghost res0 = res;
                        let ghost p0 = p;
                        let r = self.probe_read(p, res);
                        proof {
                            let more = probe_more(p0, old(self).memory_cache@, res0);
                            let q = choose|q: Pending|
                                extended(q, p0, more) && Self::records(mid, *self, q, r);
                            assert(old(self).phase == Phase::ReadingProbe(p0));
                            assert(ev == Event::Memory(res0));
                            assert(extended(q, p0, more) && Self::records(*old(self), *self, q, r));
                        }
                        r
                    },
                    _ => Action::Finished(Err(StepError::Exhausted)),
                }
            },
            Phase::Releasing(o) => {
                let outcome = match ev {
                    Event::Resumed(Ok(())) => o,
                    Event::Resumed(Err(c)) => Err(StepError::Task(c)),
                    _ => Err(StepError::Exhausted),
                };
                Action::Finished(outcome)
            },
        }
    }
}

impl Tracer {
    /// Decodes the instruction read at the program counter and plans the memory probes.
    fn decode_step(&mut self, s: RegState, code: Vec<u8>) -> (r: Action)
        requires
            old(self).counts_ok(),
            old(self).phase == Phase::ReadingCode(s),
            old(self).step_count < u64::MAX,
            old(self).suspends@ == old(self).resumes@ + 1,
            old(self).step_count == 0 ==> old(self).memory_cache@.is_empty(),
            code@.len() > 0,
        ensures
            final(self).wf(),
            final(self).db.spec_path() == old(self).db.spec_path(),
            final(self).memory_cache == old(self).memory_cache,
            final(self).suspends == old(self).suspends,
            match first_insn(code@, s.spec_pc(), s.spec_arch()) {
                None => {
                    &&& r is Resume
                    &&& final(self).phase == Phase::Releasing(Err(StepError::BadInstruction))
                    &&& final(self).db == old(self).db
                    &&& final(self).step_count == old(self).step_count
                    &&& final(self).call_depth == old(self).call_depth
                    &&& final(self).last_sp == old(self).last_sp
                },
                Some((m, ops, bytes)) => exists|p: Pending|
                    {
                        &&& decoded_as(
                            p,
                            s,
                            m,
                            ops,
                            bytes,
                            old(self).call_depth,
                            old(self).memory_cache@,
                        )
                        &&& if stack_window_wanted(s.spec_sp(), old(self).last_sp, m) {
                            &&& final(self).phase == Phase::ReadingStack(p, window_base(s.spec_sp()))
                            &&& r == Action::ReadMemory(window_base(s.spec_sp()), WINDOW_LEN)
                            &&& final(self).db == old(self).db
                            &&& final(self).step_count == old(self).step_count
                            &&& final(self).call_depth == old(self).call_depth
                            &&& final(self).last_sp == old(self).last_sp
                        } else {
                            Self::continues_with(*old(self), *final(self), p, r)
                        }
                    },
            },
    {
        let pc = s.pc();
        let sp = s.sp();
        let arch = s.arch();
        match disasm_first(arch, code.as_slice(), pc) {
            None => self.release_with(StepError::BadInstruction),
            Some(insn) => {
                let c = classify_exec(arch, &insn.mnemonic);
                let d = next_depth_exec(self.call_depth, c);
                let text = insn_text_exec(&insn.mnemonic, &insn.operands, c, d);
                let probe = if probe_wanted_exec(&insn.mnemonic) {
                    extract_memory_address(&s, &insn.operands)
                } else {
                    None
                };
                let probe_prior = match probe {
                    Some(a) => self.memory_cache.contains_key(&block_of_exec(a)),
                    None => false,
                };
                let p = Pending {
                    regs: s,
                    pc,
                    sp,
                    insn_bytes: insn.bytes,
                    text,
                    depth: d,
                    probe,
                    probe_prior,
                    changes: Vec::new(),
                };
                proof {
                    assert(decoded_as(p, s, insn.mnemonic@, insn.operands@, insn.bytes@, old(self).call_depth, old(self).memory_cache@));
                }
                if stack_window_wanted_exec(sp, self.last_sp, &insn.mnemonic) {
                    let base = window_base_exec(sp);
                    self.phase = Phase::ReadingStack(p, base);
                    Action::ReadMemory(base, WINDOW_LEN)
                } else {
                    self.probe_or_record(p)
                }
            },
        }
    }

    /// Compares the fresh stack window with the cached one and caches it.
    fn stack_read(&mut self, p: Pending, base: u64, res: Result<Vec<u8>, i32>) -> (r: Action)
        requires
            old(self).counts_ok(),
            Self::pending_ok(p, old(self).step_count, old(self).call_depth),
            old(self).suspends@ == old(self).resumes@ + 1,
            old(self).step_count == 0 ==> old(self).memory_cache@.is_empty(),
        ensures
            final(self).wf(),
            final(self).db.spec_path() == old(self).db.spec_path(),
            final(self).suspends == old(self).suspends,
            final(self).memory_cache@ == match res {
                Ok(d) => old(self).memory_cache@.insert(base, d),
                Err(_) => old(self).memory_cache@,
            },
            exists|q: Pending|
                {
                    &&& extended(
                        q,
                        p,
                        match res {
                            Ok(d) => stack_changes(base, cached(old(self).memory_cache@, base), d@),
                            Err(_) => Seq::empty(),
                        },
                    )
                    &&& Self::continues_with(*old(self), *final(self), q, r)
                },
    {
        let mut q = p;
        let ghost more: Seq<MemChange> = Seq::empty();
        match res {
            Ok(data) => {
                match self.memory_cache.get(&base) {
                    Some(prev) => {
                        push_stack_changes(&mut q.changes, base, prev, &data);
                        proof {
                            more = stack_changes(base, Some(prev@), data@);
                            let n = if prev@.len() < data@.len() { prev@.len() as int } else { data@.len() as int };
                            lemma_window_diff_differ(base, prev@, data@, n);
                        }
                    },
                    None => {
                        assert(q.changes@ =~= p.changes@ + stack_changes(base, None, data@));
                    },
                }
                self.memory_cache.insert(base, data);
            },
            Err(_) => {
                assert(q.changes@ =~= p.changes@ + Seq::<MemChange>::empty());
            },
        }
        assert(changes_differ(q.changes@));
        let ghost q0 = q;
        let r = self.probe_or_record(q);
        assert(extended(q0, p, match res {
            Ok(d) => stack_changes(base, cached(old(self).memory_cache@, base), d@),
            Err(_) => Seq::empty(),
        }));
        assert(Self::continues_with(*old(self), *self, q0, r));
        r
    }

    /// Compares the probed byte with the cached block holding it, when that
    /// block was cached before the step.
    fn probe_read(&mut self, p: Pending, res: Result<Vec<u8>, i32>) -> (r: Action)
        requires
            old(self).counts_ok(),
            Self::pending_ok(p, old(self).step_count, old(self).call_depth),
            p.probe is Some,
            old(self).suspends@ == old(self).resumes@ + 1,
        ensures
            final(self).wf(),
            final(self).db.spec_path() == old(self).db.spec_path(),
            final(self).suspends == old(self).suspends,
            final(self).memory_cache == old(self).memory_cache,
            exists|q: Pending|
                extended(q, p, probe_more(p, old(self).memory_cache@, res)) && Self::records(
                    *old(self),
                    *final(self),
                    q,
                    r,
                ),
    {
        let ghost res0 = res;
        let mut q = p;
        match res {
            Ok(now) => {
                let a = match q.probe {
                    Some(a) => a,
                    None => 0,
                };
                if q.probe_prior {
                    match probe_change_exec(a, self.memory_cache.get(&block_of_exec(a)), &now) {
                        Some(ch) => {
                            q.changes.push(ch);
                        },
                        None => {
                            assert(q.changes@ =~= p.changes@ + Seq::<MemChange>::empty());
                        },
                    }
                } else {
                    assert(q.changes@ =~= p.changes@ + Seq::<MemChange>::empty());
                }
            },
            Err(_) => {
                assert(q.changes@ =~= p.changes@ + Seq::<MemChange>::empty());
            },
        }
        assert(extended(q, p, probe_more(p, old(self).memory_cache@, res0)));
        let ghost q0 = q;
        let r = self.record(q);
        assert(Self::records(*old(self), *self, q0, r));
        r
    }
}

/// The steps recorded in a session are exactly `0, 1, ..., count - 1`.
pub proof fn lemma_steps_form_prefix(t: &Tracer)
    requires
        t.wf(),
    ensures
        t.spec_db()@.len() == t.spec_step_count(),
        forall|k: u64|
            #![trigger lookup(t.spec_db()@, k)]
            (lookup(t.spec_db()@, k) is Some) <==> k < t.spec_db()@.len(),
        forall|i: int| 0 <= i < t.spec_db()@.len() ==> (#[trigger] t.spec_db()@[i]).step == i,
{
    let s = t.spec_db()@;
    assert forall|k: u64| #![trigger lookup(s, k)] (lookup(s, k) is Some) <==> k < s.len() by {
        if k < s.len() {
            lemma_lookup_at(s, k as int);
        } else {
            lemma_lookup_absent(s, k);
        }
    }
}

/// Every recorded memory change reports a byte whose old and new values differ.
pub proof fn lemma_changes_really_differ(t: &Tracer)
    requires
        t.wf(),
    ensures
        forall|i: int, j: int|
            0 <= i < t.spec_db()@.len() && 0 <= j < t.spec_db()@[i].mem_changes.len() ==> (
            #[trigger] t.spec_db()@[i].mem_changes[j]).old_val != t.spec_db()@[i].mem_changes[j].new_val,
{
    assert forall|i: int, j: int|
        0 <= i < t.spec_db()@.len() && 0 <= j < t.spec_db()@[i].mem_changes.len() implies (
        #[trigger] t.spec_db()@[i].mem_changes[j]).old_val != t.spec_db()@[i].mem_changes[j].new_val by {
        assert(changes_differ(t.spec_db()@[i].mem_changes));
    }
}

/// After a return-class instruction the call depth is one less, floored at zero.
pub proof fn lemma_return_depth(arch: Arch, m: Seq<char>, depth: u64)
    requires
        classify(arch, m) == InsnClass::Return,
    ensures
        next_depth(depth, classify(arch, m)) == if depth == 0 {
            0
        } else {
            depth - 1
        },
        next_depth(depth, classify(arch, m)) >= 0,
{
}

/// How many failed steps in a row a tracing session tolerates.
pub const MAX_CONSECUTIVE_ERRORS: u32 = 10;

/// Whether a session with `consecutive` failed steps in a row must stop.
pub fn too_many_errors(consecutive: u32) -> (r: bool)
    ensures
        r == (consecutive > MAX_CONSECUTIVE_ERRORS),
{
    consecutive > MAX_CONSECUTIVE_ERRORS
}

/// The count of failed steps in a row after one more step: back to zero on
/// success, one more (saturating) on failure.
pub fn next_error_count(consecutive: u32, step_ok: bool) -> (r: u32)
    ensures
        r == if step_ok {
            0
        } else if consecutive == u32::MAX {
            u32::MAX
        } else {
            (consecutive + 1) as u32
        },
{
    if step_ok {
        0
    } else {
        consecutive.saturating_add(1)
    }
}
} // verus!
