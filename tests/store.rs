use tdb::codec::{decode_entries, encode_entries};
use tdb::launcher::ProcessLauncher;
use tdb::server::{RangeQuery, TraceResponse};
use tdb::storage::{MemChange, StoreError, TraceDb, TraceEntry};
use tdb::text::push_decimal;
use tdb::thread_state::{arm_thread_state64_t, x86_thread_state64_t, RegState};

fn entry(step: u64) -> TraceEntry {
    TraceEntry {
        step,
        pc: 0x1000 + 4 * step,
        insn_bytes: vec![1, 2, 3, 4],
        insn_text: format!("nop ; {}", step),
        regs: "{\"x0\":1}".to_string(),
        mem_changes: vec![MemChange { addr: step, old_val: 0, new_val: 1 }],
    }
}

fn populated(n: u64) -> TraceDb {
    let mut db = TraceDb::new("trace.tdb");
    for s in 0..n {
        db.insert(entry(s));
    }
    db
}

fn same(a: &[TraceEntry], b: &[TraceEntry]) -> bool {
    a.len() == b.len()
        && a.iter().zip(b.iter()).all(|(x, y)| {
            x.step == y.step
                && x.pc == y.pc
                && x.insn_bytes == y.insn_bytes
                && x.insn_text == y.insn_text
                && x.regs == y.regs
                && x.mem_changes == y.mem_changes
        })
}

#[test]
fn save_load_hundred_entries() {
    let db = populated(100);
    let bytes = db.save();
    let back = TraceDb::load("trace.tdb", &bytes).unwrap();
    assert_eq!(back.count(), 100);
    let r = back.get_range(10, 20);
    assert_eq!(r.len(), 11);
    let steps: Vec<u64> = r.iter().map(|e| e.step).collect();
    assert_eq!(steps, (10..=20).collect::<Vec<u64>>());
    assert!(same(&back.get_all(), &db.get_all()));
}

#[test]
fn empty_store() {
    let db = TraceDb::new("empty.tdb");
    assert_eq!(db.count(), 0);
    assert!(db.get_all().is_empty());
    let bytes = db.save();
    assert_eq!(bytes, vec![0u8; 8]);
    let back = TraceDb::load("empty.tdb", &bytes).unwrap();
    assert_eq!(back.count(), 0);
    assert!(back.get_all().is_empty());
    assert_eq!(back.path(), "empty.tdb");
}

#[test]
fn round_trip_keeps_unicode_text() {
    let mut db = TraceDb::new("u.tdb");
    let mut e = entry(0);
    e.insn_text = "mov ☃ ü".to_string();
    db.insert(e);
    let back = TraceDb::load("u.tdb", &db.save()).unwrap();
    assert_eq!(back.get(0).unwrap().insn_text, "mov ☃ ü");
}

#[test]
fn range_matches_filter() {
    let db = populated(30);
    for (a, b) in [(0u64, 0u64), (5, 9), (25, 40), (31, 50), (3, 3)] {
        let got: Vec<u64> = db.get_range(a, b).iter().map(|e| e.step).collect();
        let want: Vec<u64> = db.get_all().iter().filter(|e| a <= e.step && e.step <= b).map(|e| e.step).collect();
        assert_eq!(got, want);
    }
}

#[test]
fn insert_overwrites_and_orders() {
    let mut db = TraceDb::new("t.tdb");
    db.insert(entry(5));
    db.insert(entry(1));
    db.insert(entry(3));
    let mut again = entry(3);
    again.pc = 0xdead;
    db.insert(again);
    let steps: Vec<u64> = db.get_all().iter().map(|e| e.step).collect();
    assert_eq!(steps, vec![1, 3, 5]);
    assert_eq!(db.get(3).unwrap().pc, 0xdead);
    assert!(db.get(2).is_none());
    assert_eq!(db.count(), 3);
}

#[test]
fn image_layout_is_fixed() {
    let e = TraceEntry {
        step: 1,
        pc: 0x10,
        insn_bytes: vec![0xaa],
        insn_text: "ok".to_string(),
        regs: "{}".to_string(),
        mem_changes: vec![MemChange { addr: 2, old_val: 3, new_val: 4 }],
    };
    let bytes = encode_entries(&vec![e]);
    let mut want: Vec<u8> = Vec::new();
    for x in [1u64, 1, 1, 0x10, 1] {
        want.extend_from_slice(&x.to_le_bytes());
    }
    want.push(0xaa);
    want.extend_from_slice(&2u64.to_le_bytes());
    want.extend_from_slice(b"ok");
    want.extend_from_slice(&2u64.to_le_bytes());
    want.extend_from_slice(b"{}");
    want.extend_from_slice(&1u64.to_le_bytes());
    want.extend_from_slice(&2u64.to_le_bytes());
    want.push(3);
    want.push(4);
    assert_eq!(bytes, want);
    let back = decode_entries(&bytes).unwrap();
    assert_eq!(back.len(), 1);
    assert_eq!(back[0].insn_text, "ok");
    assert_eq!(back[0].regs, "{}");
    assert_eq!(back[0].mem_changes, vec![MemChange { addr: 2, old_val: 3, new_val: 4 }]);
}

#[test]
fn corrupt_images_are_refused() {
    let good = populated(3).save();
    let mut trailing = good.clone();
    trailing.push(0);
    assert!(matches!(TraceDb::load("x", &trailing), Err(StoreError::Corrupt)));
    let truncated = &good[..good.len() - 1];
    assert!(matches!(TraceDb::load("x", truncated), Err(StoreError::Corrupt)));
    assert!(matches!(TraceDb::load("x", &[1, 2, 3]), Err(StoreError::Corrupt)));
    let mut db = TraceDb::new("y");
    db.insert(entry(2));
    let mut other = db.save();
    // make the key disagree with the entry's own step
    other[8] = 9;
    assert!(matches!(TraceDb::load("x", &other), Err(StoreError::Corrupt)));
    let mut bad_utf8 = encode_entries(&vec![entry(0)]);
    let text_at = 8 + 24 + 8 + 4 + 8;
    bad_utf8[text_at] = 0xff;
    assert!(matches!(TraceDb::load("x", &bad_utf8), Err(StoreError::Corrupt)));
}

#[test]
fn unordered_image_is_refused() {
    let bytes = encode_entries(&vec![entry(4), entry(2)]);
    assert!(decode_entries(&bytes).is_none());
}

#[test]
fn x86_register_dump() {
    let s = x86_thread_state64_t {
        rax: 1, rbx: 2, rcx: 3, rdx: 4, rdi: 5, rsi: 6, rbp: 7, rsp: 8,
        r8: 9, r9: 10, r10: 11, r11: 12, r12: 13, r13: 14, r14: 15, r15: 16,
        rip: 17, rflags: 18446744073709551615, cs: 99, fs: 99, gs: 99,
    };
    assert_eq!(
        RegState::X86_64(s).regs_json(),
        "{\"rax\":1,\"rbx\":2,\"rcx\":3,\"rdx\":4,\"rdi\":5,\"rsi\":6,\"rbp\":7,\"rsp\":8,\"r8\":9,\"r9\":10,\"r10\":11,\"r11\":12,\"r12\":13,\"r13\":14,\"r14\":15,\"r15\":16,\"rip\":17,\"rflags\":18446744073709551615}"
    );
}

#[test]
fn arm_register_dump() {
    let mut x = [0u64; 29];
    for (i, v) in x.iter_mut().enumerate() {
        *v = i as u64 * 10;
    }
    let s = arm_thread_state64_t { x, fp: 1, lr: 2, sp: 3, pc: 4, cpsr: 0x6000_0000, pad: 7 };
    let mut want = String::from("{");
    for i in 0..29 {
        want.push_str(&format!("\"x{}\":{},", i, i * 10));
    }
    want.push_str("\"fp\":1,\"lr\":2,\"sp\":3,\"pc\":4,\"cpsr\":1610612736}");
    assert_eq!(RegState::AArch64(s).regs_json(), want);
}

#[test]
fn decimal_digits() {
    let mut v: Vec<char> = Vec::new();
    push_decimal(&mut v, 0);
    v.push(' ');
    push_decimal(&mut v, 1234);
    assert_eq!(v.iter().collect::<String>(), "0 1234");
}

#[test]
fn listing_for_query() {
    let db = populated(10);
    let all = TraceResponse::for_query(&db, &RangeQuery { start: None, end: Some(3) });
    assert_eq!(all.total, 10);
    assert_eq!(all.entries.len(), 10);
    let some = TraceResponse::for_query(&db, &RangeQuery { start: Some(2), end: Some(4) });
    assert_eq!(some.total, 10);
    let steps: Vec<u64> = some.entries.iter().map(|e| e.step).collect();
    assert_eq!(steps, vec![2, 3, 4]);
}

#[test]
fn launcher_resumes_once() {
    let mut l = ProcessLauncher::stopped(42);
    assert_eq!(l.pid(), 42);
    assert!(l.is_paused());
    l.mark_resumed();
    assert!(!l.is_paused());
    assert_eq!(l.pid, 42);
}

#[test]
fn colliding_insert_keeps_count_and_order() {
    let mut db = populated(5);
    let mut e = entry(2);
    e.pc = 0xbeef;
    db.insert(e);
    assert_eq!(db.count(), 5);
    let steps: Vec<u64> = db.get_all().iter().map(|e| e.step).collect();
    assert_eq!(steps, vec![0, 1, 2, 3, 4]);
    assert_eq!(db.get(2).unwrap().pc, 0xbeef);
    assert_eq!(db.get(3).unwrap().pc, 0x1000 + 12);
}
