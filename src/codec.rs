use vstd::prelude::*;
use vstd::utf8::{decode_utf8, encode_utf8, valid_utf8};
use crate::storage::{steps_increasing, views, EntryView, MemChange, TraceEntry};
use crate::text::string_from_utf8;

verus! {

broadcast use {
    vstd::utf8::encode_utf8_valid_utf8,
    vstd::utf8::encode_utf8_decode_utf8,
    vstd::utf8::decode_utf8_encode_utf8,
};

/// `x` as eight little-endian bytes.
pub open spec fn le64(x: u64) -> Seq<u8> {
    seq![
        x as u8,
        (x >> 8) as u8,
        (x >> 16) as u8,
        (x >> 24) as u8,
        (x >> 32) as u8,
        (x >> 40) as u8,
        (x >> 48) as u8,
        (x >> 56) as u8,
    ]
}

/// The integer whose little-endian bytes are the eight bytes of `s`.
pub open spec fn u64_of(s: Seq<u8>) -> u64 {
    (s[0] as u64) | (s[1] as u64) << 8 | (s[2] as u64) << 16 | (s[3] as u64) << 24 | (s[4] as u64)
        << 32 | (s[5] as u64) << 40 | (s[6] as u64) << 48 | (s[7] as u64) << 56
}

/// A byte string: its length as a `u64`, then the bytes.
pub open spec fn enc_bytes(b: Seq<u8>) -> Seq<u8> {
    le64(b.len() as u64) + b
}

/// A text: its UTF-8 encoding as a byte string.
pub open spec fn enc_text(s: Seq<char>) -> Seq<u8> {
    enc_bytes(encode_utf8(s))
}

/// One memory change: address, old byte, new byte.
pub open spec fn enc_change(c: MemChange) -> Seq<u8> {
    le64(c.addr) + seq![c.old_val, c.new_val]
}

/// The records of a list of memory changes, without the count.
pub open spec fn enc_changes_body(cs: Seq<MemChange>) -> Seq<u8>
    decreases cs.len(),
{
    if cs.len() == 0 {
        Seq::empty()
    } else {
        enc_changes_body(cs.drop_last()) + enc_change(cs.last())
    }
}

/// One entry of the stored map: the key (its step), then the entry's fields in order.
pub open spec fn enc_entry(e: EntryView) -> Seq<u8> {
    le64(e.step) + le64(e.step) + le64(e.pc) + enc_bytes(e.insn_bytes) + enc_text(e.insn_text)
        + enc_text(e.regs) + le64(e.mem_changes.len() as u64) + enc_changes_body(e.mem_changes)
}

/// The entries of the stored map, without the count.
pub open spec fn enc_entries_body(es: Seq<EntryView>) -> Seq<u8>
    decreases es.len(),
{
    if es.len() == 0 {
        Seq::empty()
    } else {
        enc_entries_body(es.drop_last()) + enc_entry(es.last())
    }
}

/// The file image of a store: the number of entries, then each entry in step order.
pub open spec fn encode_store(es: Seq<EntryView>) -> Seq<u8> {
    le64(es.len() as u64) + enc_entries_body(es)
}

/// The `u64` at `pos`, if eight bytes are there.
pub open spec fn rd_u64(b: Seq<u8>, pos: int) -> Option<u64> {
    if 0 <= pos && pos + 8 <= b.len() {
        Some(u64_of(b.subrange(pos, pos + 8)))
    } else {
        None
    }
}

/// The byte string at `pos` and the position after it.
pub open spec fn rd_bytes(b: Seq<u8>, pos: int) -> Option<(Seq<u8>, int)> {
    match rd_u64(b, pos) {
        Some(n) => if pos + 8 + n <= b.len() {
            Some((b.subrange(pos + 8, pos + 8 + n), pos + 8 + n))
        } else {
            None
        },
        None => None,
    }
}

/// The text at `pos` and the position after it; its bytes must be valid UTF-8.
pub open spec fn rd_text(b: Seq<u8>, pos: int) -> Option<(Seq<char>, int)> {
    match rd_bytes(b, pos) {
        Some((w, q)) => if valid_utf8(w) {
            Some((decode_utf8(w), q))
        } else {
            None
        },
        None => None,
    }
}

/// The memory change at `pos` and the position after it.
pub open spec fn rd_change(b: Seq<u8>, pos: int) -> Option<(MemChange, int)> {
    match rd_u64(b, pos) {
        Some(a) => if pos + 10 <= b.len() {
            Some((MemChange { addr: a, old_val: b[pos + 8], new_val: b[pos + 9] }, pos + 10))
        } else {
            None
        },
        None => None,
    }
}

/// `n` memory changes from `pos` on, and the position after them.
pub open spec fn rd_changes_n(b: Seq<u8>, pos: int, n: nat) -> Option<(Seq<MemChange>, int)>
    decreases n,
{
    if n == 0 {
        Some((Seq::empty(), pos))
    } else {
        match rd_changes_n(b, pos, (n - 1) as nat) {
            Some((cs, q)) => match rd_change(b, q) {
                Some((c, q2)) => Some((cs.push(c), q2)),
                None => None,
            },
            None => None,
        }
    }
}

/// The entry at `pos` and the position after it; its key must equal its step.
pub open spec fn rd_entry(b: Seq<u8>, pos: int) -> Option<(EntryView, int)> {
    match (rd_u64(b, pos), rd_u64(b, pos + 8), rd_u64(b, pos + 16)) {
        (Some(key), Some(step), Some(pc)) => if key != step {
            None
        } else {
            match rd_bytes(b, pos + 24) {
                Some((ib, q1)) => match rd_text(b, q1) {
                    Some((it, q2)) => match rd_text(b, q2) {
                        Some((rg, q3)) => match rd_u64(b, q3) {
                            Some(n) => match rd_changes_n(b, q3 + 8, n as nat) {
                                Some((cs, q4)) => Some(
                                    (
                                        EntryView {
                                            step,
                                            pc,
                                            insn_bytes: ib,
                                            insn_text: it,
                                            regs: rg,
                                            mem_changes: cs,
                                        },
                                        q4,
                                    ),
                                ),
                                None => None,
                            },
                            None => None,
                        },
                        None => None,
                    },
                    None => None,
                },
                None => None,
            }
        },
        _ => None,
    }
}

/// `n` entries from `pos` on, and the position after them.
pub open spec fn rd_entries_n(b: Seq<u8>, pos: int, n: nat) -> Option<(Seq<EntryView>, int)>
    decreases n,
{
    if n == 0 {
        Some((Seq::empty(), pos))
    } else {
        match rd_entries_n(b, pos, (n - 1) as nat) {
            Some((es, q)) => match rd_entry(b, q) {
                Some((e, q2)) => Some((es.push(e), q2)),
                None => None,
            },
            None => None,
        }
    }
}

/// The store a file image holds: every byte must be used and the steps must increase.
pub open spec fn parse_store(b: Seq<u8>) -> Option<Seq<EntryView>> {
    match rd_u64(b, 0) {
        Some(n) => match rd_entries_n(b, 8, n as nat) {
            Some((es, q)) => if q == b.len() && steps_increasing(es) {
                Some(es)
            } else {
                None
            },
            None => None,
        },
        None => None,
    }
}

pub proof fn lemma_le64_u64_of(x: u64)
    ensures
        u64_of(le64(x)) == x,
        le64(x).len() == 8,
{
    let s = le64(x);
    assert(u64_of(s) == ((x as u8) as u64) | (((x >> 8) as u8) as u64) << 8 | (((x >> 16) as u8) as u64)
        << 16 | (((x >> 24) as u8) as u64) << 24 | (((x >> 32) as u8) as u64) << 32 | (((x >> 40) as u8)
        as u64) << 40 | (((x >> 48) as u8) as u64) << 48 | (((x >> 56) as u8) as u64) << 56);
    assert(((x as u8) as u64) | (((x >> 8) as u8) as u64) << 8 | (((x >> 16) as u8) as u64) << 16 | (((x
        >> 24) as u8) as u64) << 24 | (((x >> 32) as u8) as u64) << 32 | (((x >> 40) as u8) as u64) << 40
        | (((x >> 48) as u8) as u64) << 48 | (((x >> 56) as u8) as u64) << 56 == x) by (bit_vector);
}



/// `e` stands in `b` from `pos` on.
pub open spec fn at(b: Seq<u8>, pos: int, e: Seq<u8>) -> bool {
    0 <= pos && pos + e.len() <= b.len() && b.subrange(pos, pos + e.len()) == e
}

proof fn lemma_at_split(b: Seq<u8>, pos: int, e1: Seq<u8>, e2: Seq<u8>)
    requires
        at(b, pos, e1 + e2),
    ensures
        at(b, pos, e1),
        at(b, pos + e1.len(), e2),
{
    let e = e1 + e2;
    assert(b.subrange(pos, pos + e1.len()) =~= e.subrange(0, e1.len() as int));
    assert(e.subrange(0, e1.len() as int) =~= e1);
    assert(b.subrange(pos + e1.len(), pos + e1.len() + e2.len()) =~= e.subrange(
        e1.len() as int,
        e.len() as int,
    ));
    assert(e.subrange(e1.len() as int, e.len() as int) =~= e2);
}

proof fn lemma_rd_u64(b: Seq<u8>, pos: int, x: u64)
    requires
        at(b, pos, le64(x)),
    ensures
        rd_u64(b, pos) == Some(x),
{
    lemma_le64_u64_of(x);
}

proof fn lemma_rd_bytes(b: Seq<u8>, pos: int, w: Seq<u8>)
    requires
        at(b, pos, enc_bytes(w)),
        b.len() <= u64::MAX,
    ensures
        rd_bytes(b, pos) == Some((w, pos + enc_bytes(w).len())),
{
    lemma_at_split(b, pos, le64(w.len() as u64), w);
    lemma_le64_u64_of(w.len() as u64);
    lemma_rd_u64(b, pos, w.len() as u64);
}

proof fn lemma_rd_text(b: Seq<u8>, pos: int, t: Seq<char>)
    requires
        at(b, pos, enc_text(t)),
        b.len() <= u64::MAX,
    ensures
        rd_text(b, pos) == Some((t, pos + enc_text(t).len())),
{
    lemma_rd_bytes(b, pos, encode_utf8(t));
}

proof fn lemma_rd_change(b: Seq<u8>, pos: int, c: MemChange)
    requires
        at(b, pos, enc_change(c)),
    ensures
        rd_change(b, pos) == Some((c, pos + 10)),
{
    lemma_le64_u64_of(c.addr);
    lemma_at_split(b, pos, le64(c.addr), seq![c.old_val, c.new_val]);
    lemma_rd_u64(b, pos, c.addr);
    assert(b[pos + 8] == b.subrange(pos + 8, pos + 10)[0]);
    assert(b[pos + 9] == b.subrange(pos + 8, pos + 10)[1]);
}

proof fn lemma_changes_len(cs: Seq<MemChange>)
    ensures
        enc_changes_body(cs).len() == 10 * cs.len(),
    decreases cs.len(),
{
    if cs.len() > 0 {
        lemma_changes_len(cs.drop_last());
        lemma_le64_u64_of(cs.last().addr);
    }
}

proof fn lemma_rd_changes(b: Seq<u8>, pos: int, cs: Seq<MemChange>)
    requires
        at(b, pos, enc_changes_body(cs)),
    ensures
        rd_changes_n(b, pos, cs.len()) == Some((cs, pos + enc_changes_body(cs).len())),
    decreases cs.len(),
{
    if cs.len() > 0 {
        let dl = cs.drop_last();
        lemma_at_split(b, pos, enc_changes_body(dl), enc_change(cs.last()));
        lemma_rd_changes(b, pos, dl);
        lemma_rd_change(b, pos + enc_changes_body(dl).len(), cs.last());
        lemma_le64_u64_of(cs.last().addr);
        assert(dl.push(cs.last()) =~= cs);
        assert((cs.len() - 1) as nat == dl.len());
    } else {
        assert(cs =~= Seq::<MemChange>::empty());
    }
}

proof fn lemma_rd_entry(b: Seq<u8>, pos: int, e: EntryView)
    requires
        at(b, pos, enc_entry(e)),
        b.len() <= u64::MAX,
    ensures
        rd_entry(b, pos) == Some((e, pos + enc_entry(e).len())),
{
    let k = le64(e.step);
    let s1 = le64(e.step);
    let s2 = le64(e.pc);
    let s3 = enc_bytes(e.insn_bytes);
    let s4 = enc_text(e.insn_text);
    let s5 = enc_text(e.regs);
    let s6 = le64(e.mem_changes.len() as u64);
    let s7 = enc_changes_body(e.mem_changes);
    lemma_le64_u64_of(e.step);
    lemma_le64_u64_of(e.pc);
    lemma_le64_u64_of(e.mem_changes.len() as u64);
    lemma_le64_u64_of(e.insn_bytes.len() as u64);
    lemma_le64_u64_of(encode_utf8(e.insn_text).len() as u64);
    lemma_le64_u64_of(encode_utf8(e.regs).len() as u64);
    assert(enc_entry(e) == k + s1 + s2 + s3 + s4 + s5 + s6 + s7);
    lemma_at_split(b, pos, k + s1 + s2 + s3 + s4 + s5 + s6, s7);
    lemma_at_split(b, pos, k + s1 + s2 + s3 + s4 + s5, s6);
    lemma_at_split(b, pos, k + s1 + s2 + s3 + s4, s5);
    lemma_at_split(b, pos, k + s1 + s2 + s3, s4);
    lemma_at_split(b, pos, k + s1 + s2, s3);
    lemma_at_split(b, pos, k + s1, s2);
    lemma_at_split(b, pos, k, s1);
    lemma_rd_u64(b, pos, e.step);
    lemma_rd_u64(b, pos + 8, e.step);
    lemma_rd_u64(b, pos + 16, e.pc);
    lemma_rd_bytes(b, pos + 24, e.insn_bytes);
    let q1 = pos + 24 + s3.len();
    lemma_rd_text(b, q1, e.insn_text);
    let q2 = q1 + s4.len();
    lemma_rd_text(b, q2, e.regs);
    let q3 = q2 + s5.len();
    lemma_rd_u64(b, q3, e.mem_changes.len() as u64);
    lemma_changes_len(e.mem_changes);
    assert(e.mem_changes.len() <= u64::MAX);
    lemma_rd_changes(b, q3 + 8, e.mem_changes);
}

proof fn lemma_entries_len(es: Seq<EntryView>)
    ensures
        enc_entries_body(es).len() >= 24 * es.len(),
    decreases es.len(),
{
    if es.len() > 0 {
        lemma_entries_len(es.drop_last());
        lemma_le64_u64_of(es.last().step);
        lemma_le64_u64_of(es.last().pc);
    }
}

proof fn lemma_rd_entries(b: Seq<u8>, pos: int, es: Seq<EntryView>)
    requires
        at(b, pos, enc_entries_body(es)),
        b.len() <= u64::MAX,
    ensures
        rd_entries_n(b, pos, es.len()) == Some((es, pos + enc_entries_body(es).len())),
    decreases es.len(),
{
    if es.len() > 0 {
        let dl = es.drop_last();
        lemma_at_split(b, pos, enc_entries_body(dl), enc_entry(es.last()));
        lemma_rd_entries(b, pos, dl);
        lemma_rd_entry(b, pos + enc_entries_body(dl).len(), es.last());
        assert(dl.push(es.last()) =~= es);
        assert((es.len() - 1) as nat == dl.len());
    } else {
        assert(es =~= Seq::<EntryView>::empty());
    }
}

/// Saving a store and loading the image back gives the same entries: every
/// store whose image fits in memory decodes to exactly its own entries.
pub proof fn lemma_round_trip(es: Seq<EntryView>)
    requires
        steps_increasing(es),
        encode_store(es).len() <= u64::MAX,
    ensures
        parse_store(encode_store(es)) == Some(es),
{
    let b = encode_store(es);
    let body = enc_entries_body(es);
    lemma_entries_len(es);
    lemma_le64_u64_of(es.len() as u64);
    assert(b.subrange(0, b.len() as int) =~= b);
    lemma_at_split(b, 0, le64(es.len() as u64), body);
    lemma_rd_u64(b, 0, es.len() as u64);
    lemma_rd_entries(b, 8, es);
}

proof fn lemma_changes_fail(b: Seq<u8>, pos: int, k: nat, n: nat)
    requires
        rd_changes_n(b, pos, k) is None,
        k <= n,
    ensures
        rd_changes_n(b, pos, n) is None,
    decreases n - k,
{
    if k < n {
        lemma_changes_fail(b, pos, k, (n - 1) as nat);
    }
}

proof fn lemma_entries_fail(b: Seq<u8>, pos: int, k: nat, n: nat)
    requires
        rd_entries_n(b, pos, k) is None,
        k <= n,
    ensures
        rd_entries_n(b, pos, n) is None,
    decreases n - k,
{
    if k < n {
        lemma_entries_fail(b, pos, k, (n - 1) as nat);
    }
}

fn put_u64(out: &mut Vec<u8>, x: u64)
    ensures
        final(out)@ == old(out)@ + le64(x),
{
    out.push(x as u8);
    out.push((x >> 8) as u8);
    out.push((x >> 16) as u8);
    out.push((x >> 24) as u8);
    out.push((x >> 32) as u8);
    out.push((x >> 40) as u8);
    out.push((x >> 48) as u8);
    out.push((x >> 56) as u8);
    assert(final(out)@ =~= old(out)@ + le64(x));
}

fn put_bytes(out: &mut Vec<u8>, b: &[u8])
    ensures
        final(out)@ == old(out)@ + enc_bytes(b@),
{
    put_u64(out, b.len() as u64);
    let ghost start = out@;
    let mut i: usize = 0;
    while i < b.len()
        invariant
            0 <= i <= b@.len(),
            out@ == start + b@.subrange(0, i as int),
        decreases b@.len() - i,
    {
        out.push(b[i]);
        assert(out@ =~= start + b@.subrange(0, i + 1));
        i += 1;
    }
    assert(b@.subrange(0, b@.len() as int) =~= b@);
    assert(final(out)@ =~= old(out)@ + enc_bytes(b@));
}

fn put_text(out: &mut Vec<u8>, s: &String)
    ensures
        final(out)@ == old(out)@ + enc_text(s@),
{
    let b = s.as_str().as_bytes();
    put_bytes(out, b);
}

fn put_entry(out: &mut Vec<u8>, e: &TraceEntry)
    ensures
        final(out)@ == old(out)@ + enc_entry(e@),
{
    let ghost o = out@;
    put_u64(out, e.step);
    put_u64(out, e.step);
    put_u64(out, e.pc);
    put_bytes(out, e.insn_bytes.as_slice());
    put_text(out, &e.insn_text);
    put_text(out, &e.regs);
    put_u64(out, e.mem_changes.len() as u64);
    let ghost start = out@;
    let n = e.mem_changes.len();
    let mut i: usize = 0;
    while i < n
        invariant
            n == e.mem_changes@.len(),
            0 <= i <= n,
            out@ == start + enc_changes_body(e.mem_changes@.subrange(0, i as int)),
        decreases n - i,
    {
        let c = e.mem_changes[i];
        put_u64(out, c.addr);
        out.push(c.old_val);
        out.push(c.new_val);
        proof {
            let sub = e.mem_changes@.subrange(0, i + 1);
            assert(sub.drop_last() =~= e.mem_changes@.subrange(0, i as int));
            assert(out@ =~= start + enc_changes_body(sub));
        }
        i += 1;
    }
    assert(e.mem_changes@.subrange(0, n as int) =~= e.mem_changes@);
    assert(final(out)@ =~= o + enc_entry(e@));
}

/// The file image of entries given in step order.
pub fn encode_entries(entries: &Vec<TraceEntry>) -> (r: Vec<u8>)
    ensures
        r@ == encode_store(views(entries@)),
{
    let mut out: Vec<u8> = Vec::new();
    put_u64(&mut out, entries.len() as u64);
    let ghost start = out@;
    let n = entries.len();
    let mut i: usize = 0;
    while i < n
        invariant
            n == entries@.len(),
            0 <= i <= n,
            out@ == start + enc_entries_body(views(entries@).subrange(0, i as int)),
            start == le64(n as u64),
        decreases n - i,
    {
        put_entry(&mut out, &entries[i]);
        proof {
            let sub = views(entries@).subrange(0, i + 1);
            assert(sub.drop_last() =~= views(entries@).subrange(0, i as int));
            assert(sub.last() == entries@[i as int]@);
            assert(out@ =~= start + enc_entries_body(sub));
        }
        i += 1;
    }
    assert(views(entries@).subrange(0, n as int) =~= views(entries@));
    out
}

fn get_u64(b: &[u8], pos: usize) -> (r: Option<u64>)
    ensures
        r == rd_u64(b@, pos as int),
{
    if pos > b.len() || b.len() - pos < 8 {
        return None;
    }
    let x = (b[pos] as u64) | (b[pos + 1] as u64) << 8 | (b[pos + 2] as u64) << 16 | (b[pos + 3] as u64)
        << 24 | (b[pos + 4] as u64) << 32 | (b[pos + 5] as u64) << 40 | (b[pos + 6] as u64) << 48 | (b[pos
        + 7] as u64) << 56;
    let ghost s = b@.subrange(pos as int, pos + 8);
    assert(s[0] == b@[pos as int] && s[1] == b@[pos + 1] && s[2] == b@[pos + 2] && s[3] == b@[pos + 3]
        && s[4] == b@[pos + 4] && s[5] == b@[pos + 5] && s[6] == b@[pos + 6] && s[7] == b@[pos + 7]);
    Some(x)
}

fn get_bytes(b: &[u8], pos: usize) -> (r: Option<(Vec<u8>, usize)>)
    ensures
        match r {
            Some((v, q)) => rd_bytes(b@, pos as int) == Some((v@, q as int)),
            None => rd_bytes(b@, pos as int) is None,
        },
{
    let n = match get_u64(b, pos) {
        Some(n) => n,
        None => return None,
    };
    let blen = b.len();
    assert(pos + 8 <= blen);
    let start = pos + 8;
    if n > (b.len() - start) as u64 {
        return None;
    }
    let end = start + n as usize;
    let mut v: Vec<u8> = Vec::new();
    let mut i: usize = start;
    while i < end
        invariant
            start <= i <= end <= b@.len(),
            v@ == b@.subrange(start as int, i as int),
        decreases end - i,
    {
        v.push(b[i]);
        assert(v@ =~= b@.subrange(start as int, i + 1));
        i += 1;
    }
    Some((v, end))
}

fn get_text(b: &[u8], pos: usize) -> (r: Option<(String, usize)>)
    ensures
        match r {
            Some((t, q)) => rd_text(b@, pos as int) == Some((t@, q as int)),
            None => rd_text(b@, pos as int) is None,
        },
{
    match get_bytes(b, pos) {
        Some((w, q)) => match string_from_utf8(w) {
            Some(t) => Some((t, q)),
            None => None,
        },
        None => None,
    }
}

fn get_changes(b: &[u8], pos: usize, n: u64) -> (r: Option<(Vec<MemChange>, usize)>)
    ensures
        match r {
            Some((v, q)) => rd_changes_n(b@, pos as int, n as nat) == Some((v@, q as int)),
            None => rd_changes_n(b@, pos as int, n as nat) is None,
        },
{
    let mut out: Vec<MemChange> = Vec::new();
    let mut cur: usize = pos;
    let mut i: u64 = 0;
    while i < n
        invariant
            0 <= i <= n,
            rd_changes_n(b@, pos as int, i as nat) == Some((out@, cur as int)),
        decreases n - i,
    {
        let a = match get_u64(b, cur) {
            Some(a) => a,
            None => {
                proof {
                    lemma_changes_fail(b@, pos as int, (i + 1) as nat, n as nat);
                }
                return None;
            },
        };
        if b.len() - cur < 10 {
            proof {
                lemma_changes_fail(b@, pos as int, (i + 1) as nat, n as nat);
            }
            return None;
        }
        out.push(MemChange { addr: a, old_val: b[cur + 8], new_val: b[cur + 9] });
        cur = cur + 10;
        i = i + 1;
    }
    Some((out, cur))
}

fn get_entry(b: &[u8], pos: usize) -> (r: Option<(TraceEntry, usize)>)
    ensures
        match r {
            Some((e, q)) => rd_entry(b@, pos as int) == Some((e@, q as int)),
            None => rd_entry(b@, pos as int) is None,
        },
{
    let key = match get_u64(b, pos) {
        Some(x) => x,
        None => return None,
    };
    assert(pos + 8 <= b@.len());
    if b.len() - pos < 24 {
        return None;
    }
    let step = match get_u64(b, pos + 8) {
        Some(x) => x,
        None => return None,
    };
    let pc = match get_u64(b, pos + 16) {
        Some(x) => x,
        None => return None,
    };
    if key != step {
        return None;
    }
    let (insn_bytes, q1) = match get_bytes(b, pos + 24) {
        Some(x) => x,
        None => return None,
    };
    let (insn_text, q2) = match get_text(b, q1) {
        Some(x) => x,
        None => return None,
    };
    let (regs, q3) = match get_text(b, q2) {
        Some(x) => x,
        None => return None,
    };
    let n = match get_u64(b, q3) {
        Some(x) => x,
        None => return None,
    };
    let (mem_changes, q4) = match get_changes(b, q3 + 8, n) {
        Some(x) => x,
        None => return None,
    };
    Some((TraceEntry { step, pc, insn_bytes, insn_text, regs, mem_changes }, q4))
}

fn increasing_exec(v: &Vec<TraceEntry>) -> (r: bool)
    ensures
        r == steps_increasing(views(v@)),
{
    let n = v.len();
    if n == 0 {
        return true;
    }
    let mut i: usize = 1;
    while i < n
        invariant
            1 <= i <= n,
            n == v@.len(),
            steps_increasing(views(v@).subrange(0, i as int)),
        decreases n - i,
    {
        if v[i - 1].step >= v[i].step {
            assert(!steps_increasing(views(v@))) by {
                assert(views(v@)[i - 1].step >= views(v@)[i as int].step);
            }
            return false;
        }
        proof {
            let s = views(v@);
            let u = s.subrange(0, i + 1);
            assert forall|a: int, c: int| 0 <= a < c < i + 1 implies #[trigger] u[a].step < #[trigger] u[c].step by {
                let t = s.subrange(0, i as int);
                if c < i {
                    assert(t[a] == s[a] && t[c] == s[c]);
                } else if a < i - 1 {
                    assert(t[a] == s[a] && t[i - 1] == s[i - 1]);
                }
            }
        }
        i += 1;
    }
    assert(views(v@).subrange(0, n as int) =~= views(v@));
    true
}

/// The entries held by a file image, or `None` when the image is not one.
pub fn decode_entries(b: &[u8]) -> (r: Option<Vec<TraceEntry>>)
    ensures
        match r {
            Some(v) => parse_store(b@) == Some(views(v@)),
            None => parse_store(b@) is None,
        },
{
    let n = match get_u64(b, 0) {
        Some(n) => n,
        None => return None,
    };
    let mut out: Vec<TraceEntry> = Vec::new();
    let mut cur: usize = 8;
    let mut i: u64 = 0;
    while i < n
        invariant
            0 <= i <= n,
            rd_u64(b@, 0) == Some(n),
            rd_entries_n(b@, 8, i as nat) == Some((views(out@), cur as int)),
        decreases n - i,
    {
        match get_entry(b, cur) {
            Some((e, q)) => {
                let ghost before = out@;
                out.push(e);
                assert(views(out@) =~= views(before).push(e@));
                cur = q;
            },
            None => {
                proof {
                    assert(rd_entries_n(b@, 8, (i + 1) as nat) is None);
                    lemma_entries_fail(b@, 8, (i + 1) as nat, n as nat);
                }
                return None;
            },
        }
        i = i + 1;
    }
    if cur != b.len() {
        return None;
    }
    if !increasing_exec(&out) {
        return None;
    }
    Some(out)
}
} // verus!
