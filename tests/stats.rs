use tdb::stats::TraceStats;
use tdb::storage::{TraceDb, TraceEntry};
use tdb::tracer::{next_error_count, too_many_errors};

fn entry(step: u64, pc: u64, text: &str) -> TraceEntry {
    TraceEntry { step, pc, insn_bytes: vec![0], insn_text: text.to_string(), regs: "{}".to_string(), mem_changes: vec![] }
}

fn db_of(items: &[(u64, &str)]) -> TraceDb {
    let mut db = TraceDb::new("s.tdb");
    for (i, (pc, text)) in items.iter().enumerate() {
        db.insert(entry(i as u64, *pc, text));
    }
    db
}

#[test]
fn stats_counts_classes() {
    let db = db_of(&[
        (0x10, "call 0x20"),
        (0x20, "push rbp"),
        (0x24, "jmp 0x30"),
        (0x30, "ret "),
        (0x10, "bl #0x40 ; CALL [depth:1]"),
        (0x40, "b.ne #0x10"),
        (0x44, "retq "),
        (0x10, "  mov x0, #1"),
        (0x48, "blr x3"),
    ]);
    let s = TraceStats::analyze(&db);
    assert_eq!(s.total_steps, 9);
    assert_eq!(s.unique_addresses, 7);
    assert_eq!(s.call_count, 2);
    assert_eq!(s.ret_count, 2);
    assert_eq!(s.jump_count, 3);
    assert_eq!(s.most_executed_address, Some((0x10, 3)));
    assert!(s.instruction_counts.len() == 9);
    for (_, c) in &s.instruction_counts {
        assert_eq!(*c, 1);
    }
    assert!(s.instruction_counts.iter().any(|(m, _)| m == "mov"));
}

#[test]
fn stats_top_instructions() {
    let mut items: Vec<(u64, String)> = Vec::new();
    for i in 0..25u64 {
        for _ in 0..(i % 5 + 1) {
            items.push((i, format!("op{} x", i)));
        }
    }
    let refs: Vec<(u64, &str)> = items.iter().map(|(p, t)| (*p, t.as_str())).collect();
    let s = TraceStats::analyze(&db_of(&refs));
    assert_eq!(s.instruction_counts.len(), 20);
    assert_eq!(s.instruction_counts[0], ("op4".to_string(), 5));
    for w in s.instruction_counts.windows(2) {
        assert!(w[0].1 >= w[1].1);
    }
    assert_eq!(s.instruction_counts.iter().filter(|(_, c)| *c == 5).count(), 5);
    assert_eq!(s.unique_addresses, 25);
}

#[test]
fn stats_of_empty_trace() {
    let s = TraceStats::analyze(&TraceDb::new("e.tdb"));
    assert_eq!(s.total_steps, 0);
    assert_eq!(s.unique_addresses, 0);
    assert!(s.instruction_counts.is_empty());
    assert_eq!(s.most_executed_address, None);
}

#[test]
fn blank_text_has_empty_mnemonic() {
    let s = TraceStats::analyze(&db_of(&[(1, "   "), (2, "")]));
    assert_eq!(s.instruction_counts, vec![(String::new(), 2)]);
}

#[test]
fn error_tolerance() {
    assert!(!too_many_errors(10));
    assert!(too_many_errors(11));
    let mut n: u32 = 0;
    for _ in 0..11 {
        n = next_error_count(n, false);
    }
    assert!(too_many_errors(n));
    assert_eq!(next_error_count(n, true), 0);
    assert_eq!(next_error_count(u32::MAX, false), u32::MAX);
}
