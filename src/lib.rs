//! A timeless debugger core: the trace store, its on-disk encoding, the
//! single-step engine that turns sampled task state into trace entries, and
//! the statistics pass over a finished trace.

pub mod codec;
pub mod disasm;
pub mod launcher;
pub mod rules;
pub mod server;
pub mod stats;
pub mod storage;
pub mod text;
pub mod thread_state;
pub mod tracer;
