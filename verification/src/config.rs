//! Run configuration shared by simulation and exploration code.

use crate::bytes::{le, u64_le};
use crate::dns::DnsTable;
use crate::ids::{ActorId, EntryHash};
use crate::net::LinkConfig;
use crate::probability::Probability;
use vstd::prelude::*;

verus! {

/// A deterministic crash applied to storage.
#[derive(Debug, Clone, PartialEq, Eq)]
pub enum CrashOperation {
    /// Drop everything that was not synced.
    DropAllUnsynced,
    /// Drop the unsynced writes of one path.
    DropPaths {
        /// Affected path.
        path: String,
    },
    /// Keep only a prefix of one write.
    TornWrite {
        /// The write.
        write_entry: EntryHash,
        /// Bytes of it that persist.
        persisted_prefix: u64,
    },
    /// Combine bytes of one write with a mask.
    CorruptRange {
        /// The write.
        write_entry: EntryHash,
        /// First affected byte.
        offset: u64,
        /// Mask combined by exclusive or.
        xor_bytes: Vec<u8>,
    },
    /// Flip one bit of one write.
    BitFlip {
        /// The write.
        write_entry: EntryHash,
        /// Affected byte.
        offset: u64,
        /// Affected bit of it.
        bit: u8,
    },
}

/// The mathematical content of a [`CrashOperation`].
pub enum Crash {
    DropAllUnsynced,
    DropPaths { path: Seq<char> },
    TornWrite { write_entry: EntryHash, persisted_prefix: u64 },
    CorruptRange { write_entry: EntryHash, offset: u64, xor_bytes: Seq<u8> },
    BitFlip { write_entry: EntryHash, offset: u64, bit: u8 },
}

impl View for CrashOperation {
    type V = Crash;

    open spec fn view(&self) -> Crash {
        match *self {
            CrashOperation::DropAllUnsynced => Crash::DropAllUnsynced,
            CrashOperation::DropPaths { path } => Crash::DropPaths { path: path@ },
            CrashOperation::TornWrite { write_entry, persisted_prefix } => Crash::TornWrite {
                write_entry,
                persisted_prefix,
            },
            CrashOperation::CorruptRange { write_entry, offset, xor_bytes } => Crash::CorruptRange {
                write_entry,
                offset,
                xor_bytes: xor_bytes@,
            },
            CrashOperation::BitFlip { write_entry, offset, bit } => Crash::BitFlip {
                write_entry,
                offset,
                bit,
            },
        }
    }
}

/// One deterministic fault at an exact causal position (a journal entry id).
///
/// An executor applies each injection when it journals the targeted entry.
/// The derived order gives fault schedules one canonical deterministic order;
/// the variant declaration order defines the rank.
#[derive(Debug, Clone, Copy, PartialEq, Eq, PartialOrd, Ord, Hash)]
pub enum SimFault {
    /// Drop the message sent by this `Send` entry.
    Drop(EntryHash),
    /// Delay delivery of this `Send` entry by `ticks`.
    Delay {
        /// Targeted send.
        send: EntryHash,
        /// Extra ticks.
        ticks: u64,
    },
    /// Partition the directed link (applied when the executor starts).
    Partition {
        /// Sending actor.
        src: ActorId,
        /// Receiving actor.
        dst: ActorId,
    },
    /// Crash storage immediately after this `FsWrite` entry.
    Crash(EntryHash),
    /// Corrupt the stored value after this `FsWrite` entry with an xor mask.
    Corrupt {
        /// Targeted write.
        write: EntryHash,
        /// Mask combined by exclusive or.
        xor_mask: u64,
    },
    /// Apply the crash-state operator at index `state` after this `FsWrite`.
    CrashState {
        /// Targeted write.
        write: EntryHash,
        /// Operator index.
        state: u64,
    },
    /// Transmit the message sent by this `Send` entry a second time.
    Duplicate {
        /// Targeted send.
        send: EntryHash,
    },
}

/// The crash operation that a fault asks for: none for faults of another kind,
/// an error for a crash state without operator.
pub open spec fn crash_of(fault: SimFault, path: Seq<char>) -> Option<Result<Crash, u64>> {
    match fault {
        SimFault::Crash(_) => Some(Ok(Crash::DropAllUnsynced)),
        SimFault::Corrupt { write, xor_mask } => Some(
            Ok(
                Crash::CorruptRange {
                    write_entry: write,
                    offset: 0,
                    xor_bytes: le(xor_mask as nat, 8),
                },
            ),
        ),
        SimFault::CrashState { write, state } => Some(
            if state == 0 {
                Ok(Crash::DropAllUnsynced)
            } else if state == 1 {
                Ok(Crash::DropPaths { path })
            } else if state == 2 {
                Ok(Crash::TornWrite { write_entry: write, persisted_prefix: 0 })
            } else {
                Err(state)
            },
        ),
        _ => None,
    }
}

impl SimFault {
    /// The canonical crash operation this fault requests, when it is a
    /// crash-type fault. The executor applies exactly this operation and
    /// journals it; replay verifies the journaled operation against this
    /// same derivation, so the two sides cannot drift.
    ///
    /// Returns `None` for non-crash faults, `Ok(op)` for the canonical
    /// operation, and `Err(identifier)` for an unknown crash-state
    /// identifier that must fail closed.
    pub fn crash_operation_for(&self, write_path: &str) -> (r: Option<Result<CrashOperation, u64>>)
        ensures
            match crash_of(*self, write_path@) {
                None => r is None,
                Some(Ok(op)) => r matches Some(Ok(found)) && found@ == op,
                Some(Err(state)) => r == Some(Err::<CrashOperation, u64>(state)),
            },
    {
        match self {
            SimFault::Crash(_) => Some(Ok(CrashOperation::DropAllUnsynced)),
            SimFault::Corrupt { write, xor_mask } => Some(
                Ok(
                    CrashOperation::CorruptRange {
                        write_entry: *write,
                        offset: 0,
                        xor_bytes: u64_le(*xor_mask),
                    },
                ),
            ),
            SimFault::CrashState { write, state } => Some(
                if *state == 0 {
                    Ok(CrashOperation::DropAllUnsynced)
                } else if *state == 1 {
                    Ok(CrashOperation::DropPaths { path: write_path.to_owned() })
                } else if *state == 2 {
                    Ok(CrashOperation::TornWrite { write_entry: *write, persisted_prefix: 0 })
                } else {
                    Err(*state)
                },
            ),
            _ => None,
        }
    }
}

/// Scheduling policy for one deterministic run.
#[derive(Debug, Clone, Copy, PartialEq, Eq)]
pub enum Policy {
    /// Select a ready task from the seeded stream.
    Random,
    /// Use a bounded probabilistic concurrency schedule (PCT).
    ///
    /// `priority_changes` is the preemption budget `k`: at most `k` preemptions
    /// happen per run, and each preemption re-assigns the ready tasks'
    /// priorities. A budget of `0` never preempts and reduces to a fixed
    /// priority order.
    Pct {
        /// Preemption budget.
        priority_changes: usize,
    },
    /// Journal-novelty guided bandit with UCB1 exploration constant.
    ///
    /// `pct_mix` is the probability in `0.0 ..= 1.0` of injecting a PCT-style
    /// preemption instead of a pure UCB1 choice.
    Bandit {
        /// Bit pattern of the exploration constant.
        exploration_constant: u64,
        /// Preemption probability.
        pct_mix: Probability,
    },
    /// Follow a previously recorded task decision sequence.
    ///
    /// When the replay sequence is exhausted the scheduler delegates to its
    /// fallback policy.
    Replay,
    /// Source-DPOR exploration base for a single run.
    ///
    /// One run under `Dpor` behaves exactly like `Random`; the exploration
    /// driver uses the recorded trace to explore causally distinct schedules
    /// around this base run.
    Dpor,
}

/// Journaling-FS crash model.
#[derive(Debug, Clone, Copy, PartialEq, Eq, Structural)]
pub enum JournalingMode {
    /// Metadata journal without data ordering.
    Writeback,
    /// Data reaches storage before its metadata.
    Ordered,
    /// Data goes through the journal.
    Data,
}

/// Swarm parameters for randomized fault and network configuration.
///
/// The executor boundary consumes these: drop and delay draws gate
/// delivery, and the crash probability selects a post-crash state on storage
/// write.
#[derive(Debug, Clone, Copy, PartialEq, Eq)]
pub struct SwarmConfig {
    /// Drop probability for network messages (0.0 .. 1.0).
    pub drop_probability: Probability,
    /// Delay probability for network messages (0.0 .. 1.0).
    pub delay_probability: Probability,
    /// Maximum virtual time delay in ticks.
    pub max_delay_ticks: u64,
    /// Crash probability on storage write (0.0 .. 1.0).
    pub crash_probability: Probability,
    /// Campaign budget on distinct fault classes sampled per run.
    ///
    /// This is a budget, not a semantic guarantee: once this many distinct
    /// post-crash state classes have been applied, further sampled crashes are
    /// skipped. Minimum 1.
    pub fault_classes_per_run: usize,
}

/// Swarm parameters that never act.
pub open spec fn is_default_swarm(swarm: SwarmConfig) -> bool {
    &&& swarm.drop_probability@ == 0
    &&& swarm.delay_probability@ == 0
    &&& swarm.max_delay_ticks == 0
    &&& swarm.crash_probability@ == 0
    &&& swarm.fault_classes_per_run == 2
}

impl Default for SwarmConfig {
    fn default() -> (swarm: SwarmConfig)
        ensures
            is_default_swarm(swarm),
    {
        SwarmConfig {
            drop_probability: Probability::zero(),
            delay_probability: Probability::zero(),
            max_delay_ticks: 0,
            crash_probability: Probability::zero(),
            fault_classes_per_run: 2,
        }
    }
}

/// What a run configuration says.
#[verifier::ext_equal]
pub struct RunModel {
    pub seed: EntryHash,
    pub policy: Policy,
    pub max_steps: usize,
    pub dropped_events: Seq<EntryHash>,
    pub swarm: SwarmConfig,
    pub links: Seq<(usize, usize, LinkConfig)>,
    pub dns: Seq<(Seq<char>, usize)>,
    pub fault_schedule: Seq<SimFault>,
    pub fs_journaling: Option<JournalingMode>,
    pub monitor: bool,
    pub reorder_draw: bool,
    pub max_file_extent: Option<u64>,
    pub max_resident_bytes: Option<u64>,
}

/// The configuration that nothing was set in.
pub open spec fn is_default_run(m: RunModel) -> bool {
    &&& m.seed@ == Seq::new(32, |i: int| 0u8)
    &&& m.policy == Policy::Random
    &&& m.max_steps == 10_000
    &&& m.dropped_events.len() == 0
    &&& is_default_swarm(m.swarm)
    &&& m.links.len() == 0
    &&& m.dns.len() == 0
    &&& m.fault_schedule.len() == 0
    &&& m.fs_journaling is None
    &&& m.monitor
    &&& !m.reorder_draw
    &&& m.max_file_extent is None
    &&& m.max_resident_bytes is None
}

/// Immutable configuration for one simulation.
///
/// Construction is stable via [`RunConfig::builder`]. Direct field access is
/// crate-private; external crates use the builder and the read accessors.
#[derive(Debug)]
pub struct RunConfig {
    pub(crate) seed: EntryHash,
    pub(crate) policy: Policy,
    pub(crate) max_steps: usize,
    pub(crate) dropped_events: Vec<EntryHash>,
    pub(crate) swarm: SwarmConfig,
    pub(crate) links: Vec<(usize, usize, LinkConfig)>,
    pub(crate) dns: DnsTable,
    pub(crate) fault_schedule: Vec<SimFault>,
    pub(crate) fs_journaling: Option<JournalingMode>,
    pub(crate) monitor: bool,
    pub(crate) reorder_draw: bool,
    pub(crate) max_file_extent: Option<u64>,
    pub(crate) max_resident_bytes: Option<u64>,
}

impl View for RunConfig {
    type V = RunModel;

    closed spec fn view(&self) -> RunModel {
        RunModel {
            seed: self.seed,
            policy: self.policy,
            max_steps: self.max_steps,
            dropped_events: self.dropped_events@,
            swarm: self.swarm,
            links: self.links@,
            dns: self.dns@,
            fault_schedule: self.fault_schedule@,
            fs_journaling: self.fs_journaling,
            monitor: self.monitor,
            reorder_draw: self.reorder_draw,
            max_file_extent: self.max_file_extent,
            max_resident_bytes: self.max_resident_bytes,
        }
    }
}

/// A copy of link settings.
fn copy_links(links: &Vec<(usize, usize, LinkConfig)>) -> (copy: Vec<(usize, usize, LinkConfig)>)
    ensures
        copy@ == links@,
{
    let mut copy: Vec<(usize, usize, LinkConfig)> = Vec::new();
    let mut i: usize = 0;
    while i < links.len()
        invariant
            i <= links@.len(),
            copy@ == links@.take(i as int),
        decreases links@.len() - i,
    {
        copy.push(links[i]);
        i = i + 1;
        assert(copy@ =~= links@.take(i as int));
    }
    assert(links@.take(i as int) =~= links@);
    copy
}

impl Clone for RunConfig {
    fn clone(&self) -> (copy: RunConfig)
        ensures
            copy@ == self@,
    {
        let copy = RunConfig {
            seed: self.seed,
            policy: self.policy,
            max_steps: self.max_steps,
            dropped_events: self.dropped_events.clone(),
            swarm: self.swarm,
            links: copy_links(&self.links),
            dns: self.dns.clone(),
            fault_schedule: self.fault_schedule.clone(),
            fs_journaling: self.fs_journaling,
            monitor: self.monitor,
            reorder_draw: self.reorder_draw,
            max_file_extent: self.max_file_extent,
            max_resident_bytes: self.max_resident_bytes,
        };
        assert(copy.dropped_events@ =~= self.dropped_events@);
        assert(copy.fault_schedule@ =~= self.fault_schedule@);
        copy
    }
}

impl Default for RunConfig {
    fn default() -> (config: RunConfig)
        ensures
            is_default_run(config@),
    {
        let seed = EntryHash([0;32]);
        assert(seed@ =~= Seq::new(32, |i: int| 0u8));
        RunConfig {
            seed,
            policy: Policy::Random,
            max_steps: 10_000,
            dropped_events: Vec::new(),
            swarm: SwarmConfig::default(),
            links: Vec::new(),
            dns: DnsTable::new(),
            fault_schedule: Vec::new(),
            fs_journaling: None,
            monitor: true,
            reorder_draw: false,
            max_file_extent: None,
            max_resident_bytes: None,
        }
    }
}

impl RunConfig {
    /// Return a builder initialized from the default configuration.
    pub fn builder() -> (builder: RunConfigBuilder)
        ensures
            is_default_run(builder@),
    {
        RunConfigBuilder::default()
    }

    /// Root seed for all independent streams.
    pub fn seed(&self) -> (value: EntryHash)
        ensures
            value == self@.seed,
    {
        self.seed
    }

    /// Scheduling policy for the run.
    pub fn policy(&self) -> (value: Policy)
        ensures
            value == self@.policy,
    {
        self.policy
    }

    /// Maximum number of executed instructions.
    ///
    /// A run expects a budget of `1` or more. A budget of `0` ends it at once with
    /// `StepLimit { limit: 0 }`, before any work runs.
    pub fn max_steps(&self) -> (value: usize)
        ensures
            value == self@.max_steps,
    {
        self.max_steps
    }

    /// Journal event hashes whose effects must be dropped.
    pub fn dropped_events(&self) -> (value: &[EntryHash])
        ensures
            value@ == self@.dropped_events,
    {
        self.dropped_events.as_slice()
    }

    /// Swarm testing parameters.
    pub fn swarm(&self) -> (value: &SwarmConfig)
        ensures
            *value == self@.swarm,
    {
        &self.swarm
    }

    /// Per-link transport configuration.
    pub fn links(&self) -> (value: &[(usize, usize, LinkConfig)])
        ensures
            value@ == self@.links,
    {
        self.links.as_slice()
    }

    /// Hostname-to-actor resolution table.
    pub fn dns(&self) -> (value: &DnsTable)
        ensures
            value@ == self@.dns,
    {
        &self.dns
    }

    /// Fault schedule injected at exact causal positions.
    pub fn fault_schedule(&self) -> (value: &[SimFault])
        ensures
            value@ == self@.fault_schedule,
    {
        self.fault_schedule.as_slice()
    }

    /// Whether the journal-correctness monitor runs.
    pub fn monitor(&self) -> (value: bool)
        ensures
            value == self@.monitor,
    {
        self.monitor
    }

    /// Whether a configured reorder window serves a seeded draw instead of
    /// the deterministic newest-first message.
    pub fn reorder_draw(&self) -> (value: bool)
        ensures
            value == self@.reorder_draw,
    {
        self.reorder_draw
    }

    /// Per-run file-extent cap; `None` means the format hard limit.
    pub fn max_file_extent(&self) -> (value: Option<u64>)
        ensures
            value == self@.max_file_extent,
    {
        self.max_file_extent
    }

    /// Per-run resident budget; `None` is unlimited.
    pub fn max_resident_bytes(&self) -> (value: Option<u64>)
        ensures
            value == self@.max_resident_bytes,
    {
        self.max_resident_bytes
    }

    /// Journaling-FS crash model.
    ///
    /// `None` keeps the black-box operator. When set, the executor replays the
    /// write-ahead journal on crash.
    pub fn fs_journaling(&self) -> (value: Option<JournalingMode>)
        ensures
            value == self@.fs_journaling,
    {
        self.fs_journaling
    }

    /// Consuming setter for the root seed.
    pub fn with_seed(self, seed: EntryHash) -> (config: RunConfig)
        ensures
            config@ == (RunModel { seed, ..self@ }),
    {
        RunConfig { seed, ..self }
    }

    /// Consuming setter for the scheduling policy.
    pub fn with_policy(self, policy: Policy) -> (config: RunConfig)
        ensures
            config@ == (RunModel { policy, ..self@ }),
    {
        RunConfig { policy, ..self }
    }

    /// Consuming setter for the instruction budget.
    ///
    /// A budget of `0` ends a run at once with `StepLimit { limit: 0 }`.
    pub fn with_max_steps(self, max_steps: usize) -> (config: RunConfig)
        ensures
            config@ == (RunModel { max_steps, ..self@ }),
    {
        RunConfig { max_steps, ..self }
    }

    /// Consuming setter for the swarm parameters.
    pub fn with_swarm(self, swarm: SwarmConfig) -> (config: RunConfig)
        ensures
            config@ == (RunModel { swarm, ..self@ }),
    {
        RunConfig { swarm, ..self }
    }

    /// Consuming setter for the DNS table.
    pub fn with_dns(self, dns: DnsTable) -> (config: RunConfig)
        ensures
            config@ == (RunModel { dns: dns@, ..self@ }),
    {
        RunConfig { dns, ..self }
    }

    /// Consuming setter for the fault schedule.
    pub fn with_fault_schedule(self, fault_schedule: Vec<SimFault>) -> (config: RunConfig)
        ensures
            config@ == (RunModel { fault_schedule: fault_schedule@, ..self@ }),
    {
        RunConfig { fault_schedule, ..self }
    }

    /// Consuming setter for the per-link configuration.
    pub fn with_links(self, links: Vec<(usize, usize, LinkConfig)>) -> (config: RunConfig)
        ensures
            config@ == (RunModel { links: links@, ..self@ }),
    {
        RunConfig { links, ..self }
    }

    /// Consuming setter for the seeded reorder draws inside configured windows.
    pub fn with_reorder_draw(self, reorder_draw: bool) -> (config: RunConfig)
        ensures
            config@ == (RunModel { reorder_draw, ..self@ }),
    {
        RunConfig { reorder_draw, ..self }
    }

    /// Consuming setter for the dropped events.
    pub fn with_dropped_events(self, dropped_events: Vec<EntryHash>) -> (config: RunConfig)
        ensures
            config@ == (RunModel { dropped_events: dropped_events@, ..self@ }),
    {
        RunConfig { dropped_events, ..self }
    }

    /// Extend the fault schedule in place.
    pub fn extend_fault_schedule(&mut self, faults: Vec<SimFault>)
        ensures
            final(self)@ == (RunModel {
                fault_schedule: old(self)@.fault_schedule + faults@,
                ..old(self)@
            }),
    {
        let mut rest: Vec<SimFault> = faults;
        self.fault_schedule.append(&mut rest);
    }

    /// Convert into a builder initialized from this config.
    pub fn into_builder(self) -> (builder: RunConfigBuilder)
        ensures
            builder@ == self@,
    {
        RunConfigBuilder {
            seed: self.seed,
            policy: self.policy,
            max_steps: self.max_steps,
            dropped_events: self.dropped_events,
            swarm: self.swarm,
            links: self.links,
            dns: self.dns,
            fault_schedule: self.fault_schedule,
            fs_journaling: self.fs_journaling,
            monitor: self.monitor,
            reorder_draw: self.reorder_draw,
            max_file_extent: self.max_file_extent,
            max_resident_bytes: self.max_resident_bytes,
        }
    }
}

/// Builder for [`RunConfig`] with stable, additive setters.
///
/// Defaults mirror the default [`RunConfig`]. Call [`RunConfigBuilder::build`]
/// to finish.
#[derive(Debug)]
pub struct RunConfigBuilder {
    seed: EntryHash,
    policy: Policy,
    max_steps: usize,
    dropped_events: Vec<EntryHash>,
    swarm: SwarmConfig,
    links: Vec<(usize, usize, LinkConfig)>,
    dns: DnsTable,
    fault_schedule: Vec<SimFault>,
    fs_journaling: Option<JournalingMode>,
    monitor: bool,
    reorder_draw: bool,
    max_file_extent: Option<u64>,
    max_resident_bytes: Option<u64>,
}

impl View for RunConfigBuilder {
    type V = RunModel;

    closed spec fn view(&self) -> RunModel {
        RunModel {
            seed: self.seed,
            policy: self.policy,
            max_steps: self.max_steps,
            dropped_events: self.dropped_events@,
            swarm: self.swarm,
            links: self.links@,
            dns: self.dns@,
            fault_schedule: self.fault_schedule@,
            fs_journaling: self.fs_journaling,
            monitor: self.monitor,
            reorder_draw: self.reorder_draw,
            max_file_extent: self.max_file_extent,
            max_resident_bytes: self.max_resident_bytes,
        }
    }
}

impl Default for RunConfigBuilder {
    fn default() -> (builder: RunConfigBuilder)
        ensures
            is_default_run(builder@),
    {
        RunConfig::default().into_builder()
    }
}

impl RunConfigBuilder {
    /// Create a new builder from defaults.
    pub fn new() -> (builder: RunConfigBuilder)
        ensures
            is_default_run(builder@),
    {
        RunConfigBuilder::default()
    }

    /// Set the root seed.
    pub fn seed(self, seed: EntryHash) -> (builder: RunConfigBuilder)
        ensures
            builder@ == (RunModel { seed, ..self@ }),
    {
        RunConfigBuilder { seed, ..self }
    }

    /// Set the scheduling policy.
    pub fn policy(self, policy: Policy) -> (builder: RunConfigBuilder)
        ensures
            builder@ == (RunModel { policy, ..self@ }),
    {
        RunConfigBuilder { policy, ..self }
    }

    /// Set the instruction budget.
    ///
    /// A run expects a budget of `1` or more. A budget of `0` ends it at once with
    /// `StepLimit { limit: 0 }`, before any work runs.
    pub fn max_steps(self, max_steps: usize) -> (builder: RunConfigBuilder)
        ensures
            builder@ == (RunModel { max_steps, ..self@ }),
    {
        RunConfigBuilder { max_steps, ..self }
    }

    /// Set the dropped-events list.
    pub fn dropped_events(self, dropped_events: Vec<EntryHash>) -> (builder: RunConfigBuilder)
        ensures
            builder@ == (RunModel { dropped_events: dropped_events@, ..self@ }),
    {
        RunConfigBuilder { dropped_events, ..self }
    }

    /// Set swarm parameters.
    pub fn swarm(self, swarm: SwarmConfig) -> (builder: RunConfigBuilder)
        ensures
            builder@ == (RunModel { swarm, ..self@ }),
    {
        RunConfigBuilder { swarm, ..self }
    }

    /// Set per-link configuration.
    pub fn links(self, links: Vec<(usize, usize, LinkConfig)>) -> (builder: RunConfigBuilder)
        ensures
            builder@ == (RunModel { links: links@, ..self@ }),
    {
        RunConfigBuilder { links, ..self }
    }

    /// Set the DNS table.
    pub fn dns(self, dns: DnsTable) -> (builder: RunConfigBuilder)
        ensures
            builder@ == (RunModel { dns: dns@, ..self@ }),
    {
        RunConfigBuilder { dns, ..self }
    }

    /// Set the fault schedule.
    pub fn fault_schedule(self, fault_schedule: Vec<SimFault>) -> (builder: RunConfigBuilder)
        ensures
            builder@ == (RunModel { fault_schedule: fault_schedule@, ..self@ }),
    {
        RunConfigBuilder { fault_schedule, ..self }
    }

    /// Set whether the monitor runs.
    pub fn monitor(self, monitor: bool) -> (builder: RunConfigBuilder)
        ensures
            builder@ == (RunModel { monitor, ..self@ }),
    {
        RunConfigBuilder { monitor, ..self }
    }

    /// Set the journaling-FS crash model.
    ///
    /// `None` keeps the black-box operator.
    pub fn fs_journaling(self, fs_journaling: Option<JournalingMode>) -> (builder: RunConfigBuilder)
        ensures
            builder@ == (RunModel { fs_journaling, ..self@ }),
    {
        RunConfigBuilder { fs_journaling, ..self }
    }

    /// Serve a seeded draw inside the configured reorder window instead of
    /// the deterministic newest-first pick. Defaults to `false`.
    pub fn reorder_draw(self, reorder_draw: bool) -> (builder: RunConfigBuilder)
        ensures
            builder@ == (RunModel { reorder_draw, ..self@ }),
    {
        RunConfigBuilder { reorder_draw, ..self }
    }

    /// Set per-run filesystem budgets: a file-extent cap in bytes and an
    /// optional resident budget. `None` for the extent means the format hard
    /// limit; `None` for the resident budget means unlimited.
    pub fn fs_budgets(self, max_file_extent: Option<u64>, max_resident_bytes: Option<u64>) -> (
    builder: RunConfigBuilder)
        ensures
            builder@ == (RunModel { max_file_extent, max_resident_bytes, ..self@ }),
    {
        RunConfigBuilder { max_file_extent, max_resident_bytes, ..self }
    }

    /// Build the [`RunConfig`].
    pub fn build(self) -> (config: RunConfig)
        ensures
            config@ == self@,
    {
        RunConfig {
            seed: self.seed,
            policy: self.policy,
            max_steps: self.max_steps,
            dropped_events: self.dropped_events,
            swarm: self.swarm,
            links: self.links,
            dns: self.dns,
            fault_schedule: self.fault_schedule,
            fs_journaling: self.fs_journaling,
            monitor: self.monitor,
            reorder_draw: self.reorder_draw,
            max_file_extent: self.max_file_extent,
            max_resident_bytes: self.max_resident_bytes,
        }
    }
}

} // verus!
