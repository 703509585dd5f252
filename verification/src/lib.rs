//! Deterministic simulation: virtual time and seeded draws, a simulated network
//! and storage, cooperative tasks, fault injection, and a lint against ambient
//! effects.
//!
//! The executor and the backends ask a [`host::Host`] for everything that is
//! not theirs: the journal, time, seed streams, storage and the scheduler. Every
//! operation is proved to be a function of its state and of the answers it got.

// Values.
pub mod ids;
pub mod bytes;
pub mod text;
pub mod text_laws;
pub mod float;
pub mod probability;
pub mod clock;
pub mod backoff;
pub mod digest;

// Configuration and its canonical form.
pub mod cbor;
pub mod dns;
pub mod net;
pub mod net_laws;
pub mod config;
pub mod config_canonical;
pub mod config_laws;
pub mod format_laws;

// The journal and the world around a run.
pub mod journal;
pub mod effects;
pub mod origin;
pub mod stream;
pub mod host;
pub mod messages;

// Runs.
pub mod runtime;
pub mod sentinel;
pub mod model;
pub mod schedule;
pub mod executor;
pub mod program;
pub mod books;
pub mod soundness;
pub mod deeds;
pub mod deed_laws;
pub mod send_laws;
pub mod turn_laws;
pub mod program_laws;
pub mod start_laws;
pub mod hearing_laws;
pub mod stage_laws;
pub mod run_laws;
pub mod effect_laws;
pub mod tape;
pub mod echoes;
pub mod monitor_laws;
pub mod replay_laws;
pub mod bench;
pub mod dpor;
pub mod dpor_laws;
pub mod explore_laws;

// Backends.
pub mod backend_sim;
pub mod backend_laws;
pub mod backend_deed_laws;
pub mod backend_tokio;
pub mod reading_laws;
pub mod wasi;
pub mod guest_laws;

// The lint.
pub mod scanner;
pub mod scanner_laws;
pub mod source_laws;

use vstd::prelude::*;

verus! {

/// Widen a machine word to the counter width used throughout the crate.
pub fn u64_of_usize(value: usize) -> (wide: u64)
    ensures
        wide == value,
{
    value as u64
}

} // verus!
