use vstd::prelude::*;
use crate::codec::{decode_entries, encode_entries, encode_store, parse_store};

verus! {

/// One byte of target memory whose value differed between two snapshots.
#[derive(Clone, Copy, Debug, PartialEq, Eq, Structural)]
pub struct MemChange {
    pub addr: u64,
    pub old_val: u8,
    pub new_val: u8,
}

/// One sampled instruction.
#[derive(Clone, Debug)]
pub struct TraceEntry {
    pub step: u64,
    pub pc: u64,
    pub insn_bytes: Vec<u8>,
    pub insn_text: String,
    pub regs: String,
    pub mem_changes: Vec<MemChange>,
}

/// The mathematical content of a `TraceEntry`.
pub struct EntryView {
    pub step: u64,
    pub pc: u64,
    pub insn_bytes: Seq<u8>,
    pub insn_text: Seq<char>,
    pub regs: Seq<char>,
    pub mem_changes: Seq<MemChange>,
}

impl View for TraceEntry {
    type V = EntryView;

    open spec fn view(&self) -> EntryView {
        EntryView {
            step: self.step,
            pc: self.pc,
            insn_bytes: self.insn_bytes@,
            insn_text: self.insn_text@,
            regs: self.regs@,
            mem_changes: self.mem_changes@,
        }
    }
}

impl TraceEntry {
    /// A copy with the same content.
    pub fn duplicate(&self) -> (r: TraceEntry)
        ensures
            r@ == self@,
    {
        let r = TraceEntry {
            step: self.step,
            pc: self.pc,
            insn_bytes: self.insn_bytes.clone(),
            insn_text: self.insn_text.clone(),
            regs: self.regs.clone(),
            mem_changes: self.mem_changes.clone(),
        };
        assert(r.insn_bytes@ =~= self.insn_bytes@);
        assert(r.mem_changes@ =~= self.mem_changes@);
        r
    }
}

/// The views of a sequence of entries.
pub open spec fn views(s: Seq<TraceEntry>) -> Seq<EntryView> {
    s.map_values(|e: TraceEntry| e@)
}

/// Steps strictly increase along the sequence.
pub open spec fn steps_increasing(s: Seq<EntryView>) -> bool {
    forall|i: int, j: int| 0 <= i < j < s.len() ==> s[i].step < s[j].step
}

/// The entry recorded for `step`, if any.
pub open spec fn lookup(s: Seq<EntryView>, step: u64) -> Option<EntryView> {
    if exists|i: int| 0 <= i < s.len() && s[i].step == step {
        Some(s[choose|i: int| 0 <= i < s.len() && s[i].step == step])
    } else {
        None
    }
}

/// Whether `e.step` lies in the inclusive range `lo..=hi`.
pub open spec fn in_range(lo: u64, hi: u64) -> spec_fn(EntryView) -> bool {
    |e: EntryView| lo <= e.step && e.step <= hi
}

/// Filtering a sequence extended by one element.
pub proof fn lemma_filter_push(s: Seq<EntryView>, x: EntryView, p: spec_fn(EntryView) -> bool)
    ensures
        s.push(x).filter(p) == if p(x) {
            s.filter(p).push(x)
        } else {
            s.filter(p)
        },
{
    reveal_with_fuel(Seq::filter, 1);
    assert(s.push(x).drop_last() =~= s);
}

/// In a sequence with increasing steps, `lookup` finds the entry at index `i`.
pub proof fn lemma_lookup_at(s: Seq<EntryView>, i: int)
    requires
        steps_increasing(s),
        0 <= i < s.len(),
    ensures
        lookup(s, s[i].step) == Some(s[i]),
{
    let j = choose|j: int| 0 <= j < s.len() && s[j].step == s[i].step;
    assert(j == i);
}

/// In a sequence with increasing steps, a step that no entry carries has no entry.
pub proof fn lemma_lookup_absent(s: Seq<EntryView>, step: u64)
    requires
        forall|i: int| 0 <= i < s.len() ==> s[i].step != step,
    ensures
        lookup(s, step) == None::<EntryView>,
{
}

/// Why a file image could not be loaded.
#[derive(Clone, Copy, Debug, PartialEq, Eq, Structural)]
pub enum StoreError {
    /// The bytes are not the image of a store.
    Corrupt,
}

/// The trace store: entries ordered by step, bound to the path it is saved to.
pub struct TraceDb {
    entries: Vec<TraceEntry>,
    path: String,
}

impl View for TraceDb {
    type V = Seq<EntryView>;

    closed spec fn view(&self) -> Seq<EntryView> {
        views(self.entries@)
    }
}

impl TraceDb {
    /// Entries are kept in strictly increasing step order.
    pub open spec fn wf(&self) -> bool {
        steps_increasing(self@)
    }

    /// The path the store is bound to.
    pub closed spec fn spec_path(&self) -> Seq<char> {
        self.path@
    }

    /// An empty store bound to `path`.
    pub fn new(path: &str) -> (r: TraceDb)
        ensures
            r.wf(),
            r@ == Seq::<EntryView>::empty(),
            r.spec_path() == path@,
    {
        let r = TraceDb { entries: Vec::new(), path: path.to_string() };
        assert(r@ =~= Seq::<EntryView>::empty());
        r
    }

    /// A store holding `entries`, which must already be in increasing step order.
    pub fn from_entries(path: &str, entries: Vec<TraceEntry>) -> (r: TraceDb)
        requires
            steps_increasing(views(entries@)),
        ensures
            r.wf(),
            r@ == views(entries@),
            r.spec_path() == path@,
    {
        TraceDb { entries, path: path.to_string() }
    }

    /// The path the store is bound to.
    pub fn path(&self) -> (r: &str)
        ensures
            r@ == self.spec_path(),
    {
        self.path.as_str()
    }

    /// Records `entry` under its step; an entry already there is replaced.
    pub fn insert(&mut self, entry: TraceEntry)
        requires
            old(self).wf(),
        ensures
            final(self).wf(),
            final(self).spec_path() == old(self).spec_path(),
            forall|k: u64|
                #![trigger lookup(final(self)@, k)]
                lookup(final(self)@, k) == if k == entry.step {
                    Some(entry@)
                } else {
                    lookup(old(self)@, k)
                },
            lookup(old(self)@, entry.step) is Some ==> final(self)@.len() == old(self)@.len(),
            lookup(old(self)@, entry.step) is None ==> final(self)@.len() == old(self)@.len() + 1,
            // recording the next step in order appends
            (old(self)@.len() == 0 || old(self)@.last().step < entry.step) ==> final(self)@
                == old(self)@.push(entry@),
    {
        let ghost s0 = self@;
        let n = self.entries.len();
        let mut i: usize = 0;
        while i < n && self.entries[i].step < entry.step
            invariant
                n == self.entries.len(),
                self@ == s0,
                steps_increasing(s0),
                0 <= i <= n,
                forall|j: int| 0 <= j < i ==> s0[j].step < entry.step,
            decreases n - i,
        {
            i += 1;
        }
        let ghost e = entry@;
        if i < n && self.entries[i].step == entry.step {
            self.entries.set(i, entry);
            proof {
                let s1 = self@;
                assert(s1 =~= s0.update(i as int, e));
                assert(s0[i as int].step == e.step);
                lemma_lookup_at(s0, i as int);
                assert forall|a: int, b: int| 0 <= a < b < s1.len() implies s1[a].step < s1[b].step by {
                    assert(s1[a].step == s0[a].step);
                    assert(s1[b].step == s0[b].step);
                }
                assert forall|k: u64| #[trigger]
                    lookup(s1, k) == if k == e.step {
                        Some(e)
                    } else {
                        lookup(s0, k)
                    } by {
                    if k == e.step {
                        lemma_lookup_at(s1, i as int);
                    } else if exists|j: int| 0 <= j < s0.len() && s0[j].step == k {
                        let j = choose|j: int| 0 <= j < s0.len() && s0[j].step == k;
                        lemma_lookup_at(s0, j);
                        lemma_lookup_at(s1, j);
                    } else {
                        lemma_lookup_absent(s1, k);
                    }
                }
            }
        } else {
            self.entries.insert(i, entry);
            proof {
                let s1 = self@;
                assert(s1 =~= s0.insert(i as int, e));
                assert forall|j: int| 0 <= j < s0.len() implies s0[j].step != e.step by {
                    if j >= i {
                        assert(s0[i as int].step > e.step);
                        if j > i {
                            assert(s0[i as int].step < s0[j].step);
                        }
                    }
                }
                lemma_lookup_absent(s0, e.step);
                assert forall|a: int, b: int| 0 <= a < b < s1.len() implies s1[a].step < s1[b].step by {
                    if b < i {
                    } else if a < i && b == i {
                    } else if a < i {
                        assert(s1[b] == s0[b - 1]);
                    } else if a == i {
                        assert(s1[b] == s0[b - 1]);
                    } else {
                        assert(s1[b] == s0[b - 1]);
                        assert(s1[a] == s0[a - 1]);
                    }
                }
                assert forall|k: u64| #[trigger]
                    lookup(s1, k) == if k == e.step {
                        Some(e)
                    } else {
                        lookup(s0, k)
                    } by {
                    if k == e.step {
                        lemma_lookup_at(s1, i as int);
                    } else if exists|j: int| 0 <= j < s0.len() && s0[j].step == k {
                        let j = choose|j: int| 0 <= j < s0.len() && s0[j].step == k;
                        lemma_lookup_at(s0, j);
                        if j < i {
                            lemma_lookup_at(s1, j);
                        } else {
                            lemma_lookup_at(s1, j + 1);
                        }
                    } else {
                        lemma_lookup_absent(s1, k);
                    }
                }
                if s0.len() == 0 || s0.last().step < e.step {
                    if i < n {
                        if i < n - 1 {
                            assert(s0[i as int].step < s0[n - 1].step);
                        }
                    }
                    assert(i == n);
                    assert(s1 =~= s0.push(e));
                }
            }
        }
    }

    /// The entry recorded for `step`.
    pub fn get(&self, step: u64) -> (r: Option<TraceEntry>)
        requires
            self.wf(),
        ensures
            r matches Some(e) ==> lookup(self@, step) == Some(e@),
            r is None ==> lookup(self@, step) is None,
    {
        let n = self.entries.len();
        let mut i: usize = 0;
        while i < n
            invariant
                n == self.entries.len(),
                0 <= i <= n,
                self.wf(),
                forall|j: int| 0 <= j < i ==> self@[j].step != step,
            decreases n - i,
        {
            if self.entries[i].step == step {
                proof {
                    lemma_lookup_at(self@, i as int);
                }
                return Some(self.entries[i].duplicate());
            }
            i += 1;
        }
        proof {
            lemma_lookup_absent(self@, step);
        }
        None
    }

    /// The entries whose step lies in `start..=end`, in step order.
    pub fn get_range(&self, start: u64, end: u64) -> (r: Vec<TraceEntry>)
        ensures
            views(r@) == self@.filter(in_range(start, end)),
    {
        let n = self.entries.len();
        let mut out: Vec<TraceEntry> = Vec::new();
        let mut i: usize = 0;
        while i < n
            invariant
                n == self.entries.len(),
                0 <= i <= n,
                views(out@) == self@.subrange(0, i as int).filter(in_range(start, end)),
            decreases n - i,
        {
            let ghost before = out@;
            let e = &self.entries[i];
            proof {
                let s = self@;
                assert(s.subrange(0, i + 1) =~= s.subrange(0, i as int).push(s[i as int]));
                assert(s.subrange(0, i as int).push(s[i as int]).drop_last() =~= s.subrange(0, i as int));
            }
            proof {
                lemma_filter_push(self@.subrange(0, i as int), self@[i as int], in_range(start, end));
            }
            if start <= e.step && e.step <= end {
                out.push(e.duplicate());
                proof {
                    assert(views(out@) =~= views(before).push(self@[i as int]));
                }
            } else {
                assert(views(out@) =~= views(before));
            }
            i += 1;
        }
        proof {
            assert(self@.subrange(0, n as int) =~= self@);
        }
        out
    }

    /// Every entry, in step order.
    pub fn get_all(&self) -> (r: Vec<TraceEntry>)
        ensures
            views(r@) == self@,
            self.wf() ==> steps_increasing(views(r@)),
    {
        let n = self.entries.len();
        let mut out: Vec<TraceEntry> = Vec::new();
        let mut i: usize = 0;
        while i < n
            invariant
                n == self.entries.len(),
                0 <= i <= n,
                views(out@) == self@.subrange(0, i as int),
                out@.len() == i,
            decreases n - i,
        {
            let ghost before = out@;
            let d = self.entries[i].duplicate();
            out.push(d);
            proof {
                assert(views(out@)[i as int] == self@[i as int]);
                assert(views(before) =~= self@.subrange(0, i as int));
                assert(views(out@) =~= self@.subrange(0, i + 1));
            }
            i += 1;
        }
        proof {
            assert(self@.subrange(0, n as int) =~= self@);
        }
        out
    }

    /// The number of entries.
    pub fn count(&self) -> (r: u64)
        ensures
            r == self@.len(),
    {
        self.entries.len() as u64
    }

    /// The file image of the store, to be written to its path.
    pub fn save(&self) -> (r: Vec<u8>)
        ensures
            r@ == encode_store(self@),
    {
        encode_entries(&self.entries)
    }

    /// The store held by a file image read from `path`.
    pub fn load(path: &str, bytes: &[u8]) -> (r: Result<TraceDb, StoreError>)
        ensures
            match r {
                Ok(db) => {
                    &&& parse_store(bytes@) == Some(db@)
                    &&& db.wf()
                    &&& db.spec_path() == path@
                },
                Err(e) => parse_store(bytes@) is None && e == StoreError::Corrupt,
            },
    {
        match decode_entries(bytes) {
            Some(v) => Ok(TraceDb::from_entries(path, v)),
            None => Err(StoreError::Corrupt),
        }
    }
}

/// Loading the saved image of a store gives back exactly its entries, in
/// order; this includes the empty store. The image must fit in memory.
pub proof fn lemma_save_then_load(db: &TraceDb)
    requires
        db.wf(),
        encode_store(db@).len() <= u64::MAX,
    ensures
        parse_store(encode_store(db@)) == Some(db@),
{
    crate::codec::lemma_round_trip(db@);
}

} // verus!
