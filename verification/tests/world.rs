//! Simulation runs in a small deterministic world: a hashed journal with vector
//! clocks, virtual time, a seeded scheduler and layered storage.

use ledger_sim::backend_sim::SimBackend;
use ledger_sim::bench::{Bench, Visits};
use ledger_sim::clock::VectorClock;
use ledger_sim::config::{
    CrashOperation, JournalingMode, Policy, RunConfig, SimFault, SwarmConfig,
};
use ledger_sim::dpor::{
    assemble_report, plan_exploration, run_dpor, DporConfig, DporReport, DporRun, Flip,
    Observed, StepTrace,
};
use ledger_sim::effects::FsError;
use ledger_sim::executor::simulation::{Executor, Limits, Plan, Simulation};
use ledger_sim::executor::{assert_schema, outcome_schema, Boundary, ExecutorShared};
use ledger_sim::host::{History, Host, MonitorIssue, ReplayViolation, SeedStream, TimerFired};
use ledger_sim::ids::{ActorId, EntryHash, MessageId, StreamId};
use ledger_sim::journal::{
    CanonicalValue, EntryKind, EntryPayload, FaultPayload, JournalError, PayloadFault, Record,
    WakePayload,
};
use ledger_sim::net::{LinkConfig, Message, QueueFullPolicy, SimNet};
use ledger_sim::origin::{EffectOrigin, OriginSource};
use ledger_sim::probability::Probability;
use ledger_sim::program::ProgramFuture;
use ledger_sim::runtime::{HaltReason, Instruction, OnlineAction, RunOutcome};
use ledger_sim::schedule::{RunResult, RuntimeError, Turn};
use ledger_sim::sentinel::{activate_process_belt, BeltStatus, Protection, ProtectionMode};
use ledger_sim::wasi::{
    fd_read, fd_write, gather_write_payload, guest_clock, ledger_fs_read, ledger_fs_write,
    ledger_log, ledger_recv, ledger_send, open_reply, open_request, random_get,
    record_write_failure, SpanFault, Trap, VectorFault, WasiRandom, MAX_WASI_IOVECS,
    MAX_WASI_WRITE_BYTES, WASI_ERRNO_INVAL, WASI_ERRNO_IO,
};
use rand_core::{Rng, SeedableRng};
use std::cell::RefCell;
use std::collections::{BTreeMap, HashMap};
use std::rc::Rc;

/// One journal entry.
#[derive(Debug, Clone)]
struct Entry {
    id: EntryHash,
    actor: ActorId,
    kind: EntryKind,
    parents: Vec<EntryHash>,
    payload: Option<EntryPayload>,
    clock: BTreeMap<u32, u64>,
}

type Monitor = Box<dyn FnMut(&[Entry], usize) -> OnlineAction>;

#[derive(Default)]
struct LabState {
    entries: Vec<Entry>,
    index: HashMap<[u8; 32], usize>,
    heads: BTreeMap<u32, EntryHash>,
    now: u64,
    timers: Vec<(u64, usize, Option<EntryHash>)>,
    seed: [u8; 32],
    policy: Option<Policy>,
    replay: Vec<usize>,
    fallback: Option<Policy>,
    strict: bool,
    decisions: Vec<usize>,
    trace: Vec<(usize, Vec<usize>, usize, usize)>,
    cache: BTreeMap<String, (u64, EntryHash)>,
    durable: BTreeMap<String, (u64, EntryHash)>,
    monitor: Option<Monitor>,
    mode: Option<JournalingMode>,
}

fn digest(parts: &[&[u8]]) -> [u8; 32] {
    let mut hasher = blake3::Hasher::new();
    for part in parts {
        hasher.update(&(part.len() as u64).to_le_bytes());
        hasher.update(part);
    }
    *hasher.finalize().as_bytes()
}

fn word_of(bytes: [u8; 32]) -> u64 {
    let mut head = [0u8; 8];
    head.copy_from_slice(&bytes[..8]);
    u64::from_le_bytes(head)
}

impl LabState {
    fn append(
        &mut self,
        actor: ActorId,
        kind: EntryKind,
        parents: Vec<EntryHash>,
        payload: Option<EntryPayload>,
        text: String,
    ) -> Result<EntryHash, JournalError> {
        let mut clock = BTreeMap::new();
        let mut causes = Vec::new();
        if let Some(head) = self.heads.get(&actor.0) {
            causes.push(*head);
        }
        causes.extend(parents.iter().copied());
        for cause in &causes {
            let at = match self.index.get(&cause.0) {
                Some(at) => *at,
                None => return Err(JournalError::MissingParent(*cause)),
            };
            for (a, n) in &self.entries[at].clock {
                let slot = clock.entry(*a).or_insert(0u64);
                *slot = (*slot).max(*n);
            }
        }
        *clock.entry(actor.0).or_insert(0) += 1;
        let mut bytes: Vec<u8> = Vec::new();
        for cause in &causes {
            bytes.extend_from_slice(&cause.0);
        }
        let name = format!("{kind:?} {text}");
        let id = EntryHash(digest(&[
            &actor.0.to_le_bytes(),
            &clock[&actor.0].to_le_bytes(),
            &bytes,
            name.as_bytes(),
        ]));
        self.index.insert(id.0, self.entries.len());
        self.heads.insert(actor.0, id);
        self.entries.push(Entry { id, actor, kind, parents, payload, clock });
        Ok(id)
    }

    fn fire_due(&mut self) -> Vec<TimerFired> {
        let now = self.now;
        let mut due: Vec<(u64, usize, Option<EntryHash>)> = Vec::new();
        let mut rest = Vec::new();
        for timer in self.timers.drain(..) {
            if timer.0 <= now {
                due.push(timer);
            } else {
                rest.push(timer);
            }
        }
        self.timers = rest;
        due.sort_by_key(|t| t.0);
        due.into_iter().map(|t| TimerFired { task: t.1, enabler: t.2 }).collect()
    }

    fn random(&self, step: usize, bound: usize) -> usize {
        let word = word_of(digest(&[&self.seed, b"sched", &(step as u64).to_le_bytes()]));
        (word % bound as u64) as usize
    }
}

/// A world that tests can look into while a run owns it.
#[derive(Clone, Default)]
struct Lab(Rc<RefCell<LabState>>);

impl Lab {
    fn seeded(seed: EntryHash) -> Lab {
        let lab = Lab::default();
        lab.0.borrow_mut().seed = seed.0;
        lab
    }

    fn watched(monitor: Monitor) -> Lab {
        let lab = Lab::default();
        lab.0.borrow_mut().monitor = Some(monitor);
        lab
    }

    fn entries(&self) -> Vec<Entry> {
        self.0.borrow().entries.clone()
    }

    fn kinds(&self) -> Vec<EntryKind> {
        self.0.borrow().entries.iter().map(|e| e.kind).collect()
    }

    fn root_hash(&self) -> EntryHash {
        let state = self.0.borrow();
        let ids: Vec<u8> = state.entries.iter().flat_map(|e| e.id.0.to_vec()).collect();
        EntryHash(digest(&[&ids]))
    }

    fn draw_u64(&self, stream: &str, offset: u64) -> u64 {
        word_of(digest(&[&self.0.borrow().seed, stream.as_bytes(), &offset.to_le_bytes()]))
    }

    fn count(&self, wanted: EntryKind) -> usize {
        self.kinds().into_iter().filter(|k| *k == wanted).count()
    }

    fn faults(&self) -> Vec<FaultPayload> {
        self.entries()
            .into_iter()
            .filter_map(|e| match e.payload {
                Some(EntryPayload::Fault(fault)) => Some(fault),
                _ => None,
            })
            .collect()
    }
}

impl Host for Lab {
    fn asked(&self) -> History {
        unreachable!("only contracts speak of the history")
    }

    fn append(&mut self, record: &Record) -> Result<EntryHash, JournalError> {
        let text = format!("{:?}", record.payload);
        self.0.borrow_mut().append(
            record.actor,
            record.payload.kind(),
            record.parents.clone(),
            Some(record.payload.clone()),
            text,
        )
    }

    fn append_batch(&mut self, batch: &Vec<Record>) -> Result<Vec<EntryHash>, JournalError> {
        let mut ids: Vec<EntryHash> = Vec::new();
        for record in batch {
            let mut parents = record.parents.clone();
            if record.chained {
                parents.extend(ids.last().copied());
            }
            let text = format!("{:?}", record.payload);
            ids.push(self.0.borrow_mut().append(
                record.actor,
                record.payload.kind(),
                parents,
                Some(record.payload.clone()),
                text,
            )?);
        }
        Ok(ids)
    }

    fn journal_len(&mut self) -> usize {
        self.0.borrow().entries.len()
    }

    fn head_for_actor(&mut self, actor: ActorId) -> Option<EntryHash> {
        self.0.borrow().heads.get(&actor.0).copied()
    }

    fn entry_clock(&mut self, id: EntryHash) -> Option<Vec<u8>> {
        let state = self.0.borrow();
        let at = *state.index.get(&id.0)?;
        let mut bytes = Vec::new();
        for (actor, n) in &state.entries[at].clock {
            bytes.extend_from_slice(&actor.to_le_bytes());
            bytes.extend_from_slice(&n.to_le_bytes());
        }
        Some(bytes)
    }

    fn now(&mut self) -> u64 {
        self.0.borrow().now
    }

    fn set_timer(&mut self, ticks: u64, task: usize, enabler: Option<EntryHash>) {
        let mut state = self.0.borrow_mut();
        let deadline = state.now.saturating_add(ticks);
        state.timers.push((deadline, task, enabler));
    }

    fn next_deadline(&mut self) -> Option<u64> {
        self.0.borrow().timers.iter().map(|t| t.0).min()
    }

    fn advance_to(&mut self, time: u64) {
        let mut state = self.0.borrow_mut();
        state.now = state.now.max(time);
    }

    fn advance_to_firing(&mut self, time: u64) -> Vec<TimerFired> {
        let mut state = self.0.borrow_mut();
        state.now = state.now.max(time);
        state.fire_due()
    }

    fn advance_firing(&mut self) -> Vec<TimerFired> {
        let mut state = self.0.borrow_mut();
        match state.timers.iter().map(|t| t.0).min() {
            None => Vec::new(),
            Some(deadline) => {
                state.now = state.now.max(deadline);
                state.fire_due()
            }
        }
    }

    fn draw(&mut self, stream: SeedStream, offset: u64) -> u64 {
        match stream {
            SeedStream::Net => self.draw_u64("net", offset),
            SeedStream::Fs => self.draw_u64("fs", offset),
        }
    }

    fn stream_seed(&mut self, label: &str) -> [u8; 32] {
        digest(&[&self.0.borrow().seed, b"stream", label.as_bytes()])
    }

    fn open_scheduler(
        &mut self,
        seed: EntryHash,
        policy: Policy,
        replay: &Vec<usize>,
        fallback: Policy,
        strict: bool,
    ) {
        let mut state = self.0.borrow_mut();
        state.seed = seed.0;
        state.policy = Some(policy);
        state.replay = replay.clone();
        state.fallback = Some(fallback);
        state.strict = strict;
    }

    fn fs_open(&mut self, _extent: u64, _resident: Option<u64>, mode: Option<JournalingMode>) {
        self.0.borrow_mut().mode = mode;
    }

    fn fs_write(
        &mut self,
        actor: ActorId,
        path: &str,
        value: u64,
    ) -> Result<EntryHash, JournalError> {
        let mut state = self.0.borrow_mut();
        let text = format!("{path}={value}");
        let id = state.append(actor, EntryKind::FsWrite, Vec::new(), None, text)?;
        state.cache.insert(path.to_string(), (value, id));
        Ok(id)
    }

    fn fs_fsync(&mut self, actor: ActorId) -> Result<EntryHash, JournalError> {
        let mut state = self.0.borrow_mut();
        let dirty = std::mem::take(&mut state.cache);
        state.durable.extend(dirty);
        state.append(actor, EntryKind::FsFsync, Vec::new(), None, String::new())
    }

    fn fs_read(&mut self, actor: ActorId, path: &str) -> Result<Option<u64>, JournalError> {
        let mut state = self.0.borrow_mut();
        let found = state.cache.get(path).or_else(|| state.durable.get(path)).copied();
        let parents = found.iter().map(|f| f.1).collect();
        let text = format!("{path}");
        state.append(actor, EntryKind::FsRead, parents, None, text)?;
        Ok(found.map(|f| f.0))
    }

    fn fs_crash(&mut self, _journaled: bool) {
        self.0.borrow_mut().cache.clear();
    }

    fn fs_apply(&mut self, _operation: &CrashOperation) -> Result<(), u64> {
        self.0.borrow_mut().cache.clear();
        Ok(())
    }

    fn novelty_active(&mut self) -> bool {
        false
    }

    fn entry_emitted(
        &mut self,
        _actor: ActorId,
        _kind: EntryKind,
        _task: usize,
        _signature: Option<u64>,
    ) {
    }

    fn choose_ready(
        &mut self,
        ready: &Vec<usize>,
        step: usize,
    ) -> Result<usize, ReplayViolation> {
        let mut state = self.0.borrow_mut();
        let at = state.decisions.len();
        let replaying = state.policy == Some(Policy::Replay);
        let choice = if replaying && at < state.replay.len() {
            let decision = state.replay[at];
            if decision >= ready.len() {
                if state.strict {
                    return Err(ReplayViolation::OutOfRange {
                        step,
                        decision,
                        ready: ready.len(),
                    });
                }
                ready.len() - 1
            } else {
                decision
            }
        } else if replaying && state.strict {
            return Err(ReplayViolation::Exhausted { step });
        } else {
            state.random(at, ready.len())
        };
        state.decisions.push(choice);
        state.trace.push((at, ready.clone(), choice, 0));
        Ok(choice)
    }

    fn trace_active(&mut self) -> bool {
        self.0.borrow().policy == Some(Policy::Dpor)
    }

    fn note_step(&mut self, journal_len: usize) {
        if let Some(last) = self.0.borrow_mut().trace.last_mut() {
            last.3 = journal_len;
        }
    }

    fn decisions(&mut self) -> Vec<usize> {
        self.0.borrow().decisions.clone()
    }

    fn check_trailing(&mut self, consumed: usize) -> Option<ReplayViolation> {
        let state = self.0.borrow();
        if state.strict && consumed < state.replay.len() {
            Some(ReplayViolation::Trailing { consumed, recorded: state.replay.len() })
        } else {
            None
        }
    }

    fn has_monitor(&mut self) -> bool {
        self.0.borrow().monitor.is_some()
    }

    fn monitor_step(&mut self, start: usize) -> OnlineAction {
        let entries = self.entries();
        match self.0.borrow_mut().monitor.as_mut() {
            Some(monitor) => monitor(&entries, start),
            None => OnlineAction::Continue,
        }
    }

    fn audit(&mut self) -> Vec<MonitorIssue> {
        let state = self.0.borrow();
        let mut issues = Vec::new();
        for (at, entry) in state.entries.iter().enumerate() {
            for parent in &entry.parents {
                if state.index.get(&parent.0).map_or(true, |p| *p >= at) {
                    issues.push(MonitorIssue::Defect { rule: 1 });
                }
            }
        }
        issues
    }

    fn check_coverage(&mut self, entries: &Vec<(ActorId, u64)>) -> Vec<MonitorIssue> {
        let state = self.0.borrow();
        let mut journaled: BTreeMap<u32, u64> = BTreeMap::new();
        for entry in &state.entries {
            *journaled.entry(entry.actor.0).or_insert(0) += 1;
        }
        let counted: BTreeMap<u32, u64> = entries.iter().map(|(a, n)| (a.0, *n)).collect();
        let mut actors: Vec<u32> = journaled.keys().chain(counted.keys()).copied().collect();
        actors.sort();
        actors.dedup();
        let mut issues = Vec::new();
        for actor in actors {
            let have = journaled.get(&actor).copied().unwrap_or(0);
            let want = counted.get(&actor).copied().unwrap_or(0);
            if have != want {
                issues.push(MonitorIssue::CoverageMismatch {
                    actor: ActorId(actor),
                    journaled: have,
                    counted: want,
                });
            }
        }
        issues
    }
}

const LIMITS: Limits = Limits { max_message_bytes: 1 << 20, max_file_extent: 1 << 30 };

fn protection(mode: ProtectionMode) -> Protection {
    Protection { mode, trap_error: None, status: activate_process_belt() }
}

fn best_effort() -> Protection {
    protection(ProtectionMode::BestEffort)
}

fn run_in(
    lab: &Lab,
    config: RunConfig,
    programs: Vec<Vec<Instruction>>,
) -> Result<RunResult, RuntimeError> {
    Simulation::new(config, LIMITS, programs, lab.clone()).run(best_effort())
}

fn simulate(config: RunConfig, programs: Vec<Vec<Instruction>>) -> (RunResult, Lab) {
    let lab = Lab::default();
    let run = run_in(&lab, config, programs).expect("run succeeds");
    (run, lab)
}

fn replay(
    config: RunConfig,
    programs: Vec<Vec<Instruction>>,
    decisions: Vec<usize>,
) -> (RunResult, Lab) {
    let lab = Lab::default();
    let run = Simulation::with_replay(config, LIMITS, programs, decisions, lab.clone())
        .run(best_effort())
        .expect("replay succeeds");
    (run, lab)
}

fn chance(value: f64) -> Probability {
    Probability::new(value.to_bits()).expect("a probability")
}

fn config(seed: u8, max_steps: usize) -> RunConfig {
    RunConfig::builder()
        .seed(EntryHash([seed; 32]))
        .policy(Policy::Random)
        .max_steps(max_steps)
        .build()
}

/// What a hand-written task does when it is polled: whether it ended.
type Body = Box<dyn FnMut(&Boundary, &mut ExecutorShared<Lab>, &Spawner) -> bool>;

/// Bodies of tasks that tasks spawn.
#[derive(Default)]
struct Spawner(RefCell<Vec<Body>>);

/// Run hand-written tasks.
fn drive(
    lab: &Lab,
    config: RunConfig,
    guard: Protection,
    bodies: Vec<Body>,
    prepare: impl FnOnce(&mut ExecutorShared<Lab>),
) -> Result<RunResult, RuntimeError> {
    let plan = Plan { replay: Vec::new(), fallback: Policy::Random, strict: false };
    let mut executor = Executor::new(config, LIMITS, plan, bodies.len(), lab.clone());
    let status = executor.start(guard)?;
    prepare(executor.shared());
    let spawner = Spawner::default();
    let mut bodies = bodies;
    if let Some(reason) = executor.begin()? {
        return executor.finish(RunOutcome::MonitorHalt(reason), status);
    }
    loop {
        if executor.is_exhausted() {
            return executor.finish(RunOutcome::BudgetExhausted, status);
        }
        let start = executor.shared().begin_step();
        let steps = executor.steps();
        match executor.shared().next_turn(steps)? {
            Turn::Stop(outcome) => return executor.finish(outcome, status),
            Turn::Poll { task, runnable } => {
                if runnable {
                    let boundary = Boundary::for_task(task);
                    let ended = bodies[task](&boundary, executor.shared(), &spawner);
                    bodies.append(&mut spawner.0.borrow_mut());
                    executor.note_poll(task, ended);
                }
                if let Some(reason) = executor.shared().end_step(start) {
                    return executor.finish(RunOutcome::MonitorHalt(reason), status);
                }
            }
        }
    }
}

fn drive_plain(seed: u8, max_steps: usize, bodies: Vec<Body>) -> (RunResult, Lab) {
    let lab = Lab::default();
    let run = drive(&lab, config(seed, max_steps), best_effort(), bodies, |_| {})
        .expect("run succeeds");
    (run, lab)
}

/// A task that does one thing and ends.
fn once(mut act: impl FnMut(&Boundary, &mut ExecutorShared<Lab>) + 'static) -> Body {
    Box::new(move |b, shared, _| {
        act(b, shared);
        true
    })
}

/// A task that receives a value, hands it on and ends.
fn receiver(mut act: impl FnMut(&Boundary, &mut ExecutorShared<Lab>, u64) + 'static) -> Body {
    Box::new(move |b, shared, _| match b.recv(shared) {
        Some(value) => {
            act(b, shared, value);
            true
        }
        None => false,
    })
}

/// A task that sleeps, then acts and ends.
fn sleeper(ticks: u64, mut act: impl FnMut(&Boundary, &mut ExecutorShared<Lab>) + 'static) -> Body {
    let mut asleep = false;
    Box::new(move |b, shared, _| {
        if !asleep {
            asleep = true;
            b.sleep(shared, ticks);
            return false;
        }
        if b.poll_sleep(shared) {
            act(b, shared);
            true
        } else {
            false
        }
    })
}

fn here(line: u32) -> OriginSource {
    OriginSource::Source(EffectOrigin { file: "tests/world.rs", line, column: 1 })
}

// ---------------------------------------------------------------------------
// Origins.
// ---------------------------------------------------------------------------

#[test]
fn send_tracked_records_origin_in_the_shared_log() {
    let (run, _) = drive_plain(
        9,
        256,
        vec![once(|b, shared| {
            b.send_tracked(shared, 1, 42, here(1));
        })],
    );
    assert_eq!(run.origins.len(), 1, "tracked send must record one origin");
    match &run.origins[0].1 {
        OriginSource::Source(origin) => {
            assert!(origin.file.ends_with("world.rs"), "got {}", origin.file);
        }
        other => panic!("expected a Source origin, got {other:?}"),
    }
}

#[test]
fn recv_inherits_the_origin_of_its_send() {
    let (run, _) = drive_plain(
        9,
        256,
        vec![
            once(|b, shared| {
                b.send_tracked(shared, 1, 42, here(1));
            }),
            receiver(|_, _, _| {}),
        ],
    );
    assert_eq!(run.origins.len(), 2, "recv must inherit the send origin");
    assert_eq!(run.origins[0].1, run.origins[1].1, "inherited origin must match the send");
}

#[test]
fn tracked_storage_write_records_origin() {
    let (run, _) = drive_plain(
        9,
        256,
        vec![once(|b, shared| {
            let id = b.write(shared, "k", 7).expect("write");
            b.record_origin(shared, id, here(1));
        })],
    );
    assert_eq!(run.origins.len(), 1, "tracked write must record one origin");
}

#[test]
fn untracked_send_leaves_origins_empty() {
    let (run, _) = drive_plain(
        9,
        256,
        vec![once(|b, shared| {
            b.send(shared, 1, 42);
        })],
    );
    assert!(run.origins.is_empty(), "plain sends must not record origins");
}

#[test]
fn tracked_and_plain_sends_journal_the_same() {
    let bodies = |traced: bool| -> Vec<Body> {
        vec![
            once(move |b, shared| {
                if traced {
                    b.send_tracked(shared, 1, 42, here(1));
                } else {
                    b.send(shared, 1, 42);
                }
            }),
            receiver(|_, _, _| {}),
        ]
    };
    let (_, traced) = drive_plain(9, 256, bodies(true));
    let (_, plain) = drive_plain(9, 256, bodies(false));
    assert_eq!(traced.root_hash(), plain.root_hash());
}

// ---------------------------------------------------------------------------
// Executor.
// ---------------------------------------------------------------------------

fn sleep_and_advance() {
    let (run, lab) = drive_plain(
        1,
        1024,
        vec![
            sleeper(5, |b, shared| {
                let _ = b.outcome(shared, 1);
            }),
            sleeper(1, |b, shared| {
                let _ = b.outcome(shared, 2);
            }),
        ],
    );
    for kind in [EntryKind::TimerSet, EntryKind::TimerFire, EntryKind::Wake, EntryKind::Outcome] {
        assert!(lab.kinds().contains(&kind), "{kind:?} must be journaled");
    }
    assert!(run.steps > 0);
    assert!(run.monitor_issues.is_empty(), "monitor issues: {:?}", run.monitor_issues);
}

#[test]
fn mod_async_tasks_sleep_and_advance_virtual_time() {
    sleep_and_advance();
}

#[test]
fn executor_async_tasks_sleep_and_advance_virtual_time() {
    sleep_and_advance();
}

fn exchange_messages() {
    let (run, lab) = drive_plain(
        2,
        1024,
        vec![
            once(|b, shared| {
                b.send(shared, 1, 42);
            }),
            receiver(|b, shared, value| {
                assert_eq!(value, 42);
                let _ = b.outcome(shared, value);
            }),
        ],
    );
    for kind in [EntryKind::Send, EntryKind::Recv, EntryKind::Outcome] {
        assert!(lab.kinds().contains(&kind), "{kind:?} must be journaled");
    }
    assert!(run.monitor_issues.is_empty(), "monitor issues: {:?}", run.monitor_issues);
}

#[test]
fn mod_async_tasks_exchange_messages() {
    exchange_messages();
}

#[test]
fn executor_async_tasks_exchange_messages() {
    exchange_messages();
}

#[test]
fn net_draw_delay_handles_max_u64_modulus_bound() {
    let lab = Lab::default();
    let plan = Plan { replay: Vec::new(), fallback: Policy::Random, strict: false };
    let mut executor = Executor::new(config(7, 64), LIMITS, plan, 0, lab.clone());
    let raw = lab.draw_u64("net", 0);
    let drawn = executor.shared().net_draw_delay(u64::MAX);
    assert_eq!(drawn, raw, "u64::MAX bound must return the raw draw");
    let value = lab.draw_u64("net", 1);
    assert_eq!(executor.shared().net_draw_delay(7), value % 8);
    let value = lab.draw_u64("net", 2);
    assert_eq!(
        executor.shared().net_draw_delay(u64::MAX - 1),
        value % u64::MAX,
        "the largest representable modulus must use the plain remainder"
    );
    assert_eq!(executor.shared().net_draw_delay(0), 0, "a zero bound always delays zero");
}

fn send_then_outcome(payload: u64) -> Vec<Body> {
    vec![
        once(move |b, shared| {
            b.send(shared, 1, payload);
        }),
        receiver(|b, shared, value| {
            let _ = b.outcome(shared, value);
        }),
    ]
}

#[test]
fn swarm_max_u64_delay_bound_run_completes() {
    let cfg = config(11, 2048).with_swarm(SwarmConfig {
        delay_probability: Probability::one(),
        max_delay_ticks: u64::MAX,
        ..SwarmConfig::default()
    });
    let lab = Lab::default();
    let run = drive(&lab, cfg, best_effort(), send_then_outcome(42), |_| {})
        .expect("run must not panic at the u64::MAX bound");
    assert!(lab.kinds().contains(&EntryKind::Send));
    assert!(lab.kinds().contains(&EntryKind::Recv));
    assert!(run.monitor_issues.is_empty(), "monitor issues: {:?}", run.monitor_issues);
    assert!(run.journal_error.is_none(), "journal must stay clean: {:?}", run.journal_error);
}

#[test]
fn max_u64_link_jitter_run_is_deterministic() {
    let with_jitter = |seed: u8| {
        let cfg = config(seed, 2048)
            .with_links(vec![(0, 1, LinkConfig { jitter: u64::MAX, ..LinkConfig::default() })]);
        let lab = Lab::default();
        let bodies = vec![
            once(|b, shared| {
                b.send(shared, 1, 7);
            }),
            receiver(|_, _, _| {}),
        ];
        (drive(&lab, cfg, best_effort(), bodies, |_| {}), lab)
    };
    let (first, first_lab) = with_jitter(13);
    let first = first.expect("run with maxed jitter must not panic");
    let (second, second_lab) = with_jitter(13);
    let second = second.expect("second run");
    assert_eq!(
        first_lab.root_hash(),
        second_lab.root_hash(),
        "maxed jitter must stay deterministic"
    );
    assert_eq!(first.steps, second.steps);
    assert!(first.journal_error.is_none(), "journal must stay clean: {:?}", first.journal_error);
    assert!(first.monitor_issues.is_empty(), "monitor issues: {:?}", first.monitor_issues);
}

fn spawned_child() {
    let root: Body = Box::new(|b, shared, spawner| {
        let child = b.spawn_task(shared);
        assert_eq!(child.task, 1);
        spawner.0.borrow_mut().push(once(|b, shared| {
            let _ = b.outcome(shared, 7);
        }));
        true
    });
    let (run, lab) = drive_plain(3, 1024, vec![root]);
    assert!(lab.count(EntryKind::Spawn) >= 2);
    assert!(lab.kinds().contains(&EntryKind::Outcome));
    assert!(run.monitor_issues.is_empty(), "monitor issues: {:?}", run.monitor_issues);
}

#[test]
fn mod_spawned_child_task_is_executed() {
    spawned_child();
}

#[test]
fn executor_spawned_child_task_is_executed() {
    spawned_child();
}

fn stream_words(lab: &Lab, wanted: u32) -> Vec<u64> {
    lab.entries()
        .into_iter()
        .filter_map(|entry| match entry.payload {
            Some(EntryPayload::RngDraw { stream, content, .. })
                if entry.actor == ActorId(0) && stream == StreamId(wanted) =>
            {
                let mut head = [0u8; 8];
                head.copy_from_slice(&content[..8]);
                Some(u64::from_le_bytes(head))
            }
            _ => None,
        })
        .collect()
}

fn independent_streams() {
    let draws = |others: usize| -> Vec<u64> {
        let (_, lab) = drive_plain(
            7,
            2048,
            vec![once(move |b, shared| {
                for _ in 0..others {
                    let _ = b.next_u64(shared, StreamId(0));
                }
                let _ = b.next_u64(shared, StreamId(1));
                let _ = b.next_u64(shared, StreamId(1));
                let _ = b.outcome(shared, 0);
            })],
        );
        stream_words(&lab, 1)
    };
    let sparse = draws(3);
    let dense = draws(7);
    assert_eq!(sparse.len(), 2);
    assert_ne!(sparse[0], sparse[1]);
    assert_eq!(
        dense, sparse,
        "stream-1 draws must be identical regardless of stream-0 consumption"
    );
}

#[test]
fn mod_app_streams_are_independent_across_tasks_and_streams() {
    independent_streams();
}

#[test]
fn executor_app_streams_are_independent_across_tasks_and_streams() {
    independent_streams();
}

fn deterministic_executor() {
    let bodies = || -> Vec<Body> {
        vec![
            sleeper(3, |b, shared| {
                let _ = b.outcome(shared, 1);
            }),
            once(|b, shared| {
                b.send(shared, 0, 9);
            }),
        ]
    };
    let (a, first) = drive_plain(5, 1024, bodies());
    let (b, second) = drive_plain(5, 1024, bodies());
    assert_eq!(a.decisions, b.decisions);
    assert_eq!(first.root_hash(), second.root_hash());
}

#[test]
fn mod_executor_is_deterministic() {
    deterministic_executor();
}

#[test]
fn executor_executor_is_deterministic() {
    deterministic_executor();
}

#[test]
fn mod_step_limit_is_enforced() {
    let endless: Body = Box::new(|b, shared, _| {
        let _ = b.poll_sleep(shared);
        b.sleep(shared, 1);
        false
    });
    let (run, _) = drive_plain(6, 4, vec![endless]);
    assert_eq!(run.outcome, RunOutcome::BudgetExhausted);
    assert!(run.steps > 0, "a budget-exhausted run must have executed steps");
}

#[test]
fn an_empty_budget_ends_the_run_at_once() {
    let lab = Lab::default();
    let error = run_in(&lab, config(6, 0), vec![vec![Instruction::Done]]).unwrap_err();
    assert_eq!(error, RuntimeError::StepLimit { limit: 0 });
    assert!(lab.0.borrow().entries.is_empty(), "no work runs");
    let error = drive(&lab, config(6, 0), best_effort(), Vec::new(), |_| {}).unwrap_err();
    assert_eq!(error, RuntimeError::StepLimit { limit: 0 });
    let guard = protection(ProtectionMode::Required);
    let error = drive(&lab, config(6, 0), guard, Vec::new(), |_| {}).unwrap_err();
    assert!(matches!(error, RuntimeError::Belt(_)), "the protection is refused first");
    let (run, _) = simulate(config(6, 1), vec![vec![Instruction::Done]]);
    assert_eq!(run.outcome, RunOutcome::Completed);
}

#[test]
fn quiesced_pending_tasks_report_blocked_outcome() {
    let (run, _) = drive_plain(9, 64, vec![receiver(|_, _, _| {})]);
    assert_eq!(run.outcome, RunOutcome::Blocked);
}

#[test]
fn finished_run_reports_completed_outcome() {
    let (run, _) = drive_plain(9, 64, vec![once(|_, _| {})]);
    assert_eq!(run.outcome, RunOutcome::Completed);
}

fn coverage_leak() {
    let lab = Lab::default();
    let leak = lab.clone();
    let bodies = vec![once(move |b, shared| {
        let _ = b.outcome(shared, 1);
        let payload = EntryPayload::Outcome {
            schema: outcome_schema(),
            value: CanonicalValue::Unsigned(99),
        };
        let text = format!("{payload:?}");
        leak.0
            .borrow_mut()
            .append(ActorId(0), EntryKind::Outcome, Vec::new(), Some(payload), text)
            .expect("direct append");
    })];
    let run = drive(&lab, config(6, 256), best_effort(), bodies, |_| {}).expect("run");
    assert!(
        run.monitor_issues
            .iter()
            .any(|issue| matches!(issue, MonitorIssue::CoverageMismatch { .. })),
        "a direct journal write must be flagged as a coverage leak; issues: {:?}",
        run.monitor_issues
    );
}

#[test]
fn mod_boundary_leak_is_detected_by_coverage_check() {
    coverage_leak();
}

#[test]
fn executor_boundary_leak_is_detected_by_coverage_check() {
    coverage_leak();
}

// ---------------------------------------------------------------------------
// Swarm.
// ---------------------------------------------------------------------------

fn base_config(seed: u8) -> RunConfig {
    config(seed, 512)
}

fn two_task_programs() -> Vec<Vec<Instruction>> {
    vec![
        vec![Instruction::Send { to: 1, payload: 42 }, Instruction::Done],
        vec![Instruction::Receive, Instruction::Outcome, Instruction::Done],
    ]
}

fn writes(paths: &[&str]) -> Vec<Vec<Instruction>> {
    let mut program: Vec<Instruction> = paths
        .iter()
        .enumerate()
        .map(|(i, path)| Instruction::FsWrite { path: path.to_string(), value: i as u64 + 1 })
        .collect();
    program.push(Instruction::Done);
    vec![program]
}

fn crash_faults(lab: &Lab) -> Vec<CrashOperation> {
    lab.faults()
        .into_iter()
        .filter_map(|fault| match fault {
            FaultPayload::CrashActor { crash_operation, .. } => Some(crash_operation),
            _ => None,
        })
        .collect()
}

fn drop_everything() {
    let cfg = base_config(10).with_swarm(SwarmConfig {
        drop_probability: Probability::one(),
        ..SwarmConfig::default()
    });
    let (run, lab) = simulate(cfg, two_task_programs());
    let drops = lab
        .faults()
        .into_iter()
        .filter(|fault| matches!(fault, FaultPayload::DropMessage { .. }))
        .count();
    assert!(drops >= 1, "a Drop fault must be journaled");
    assert!(
        !lab.kinds().contains(&EntryKind::Recv),
        "a dropped message must never be received"
    );
    assert!(run.monitor_issues.is_empty());
}

#[test]
fn mod_swarm_drop_probability_one_drops_every_message() {
    drop_everything();
}

#[test]
fn executor_swarm_drop_probability_one_drops_every_message() {
    drop_everything();
}

fn crash_budget_one() {
    let cfg = base_config(13).with_swarm(SwarmConfig {
        crash_probability: Probability::one(),
        fault_classes_per_run: 1,
        ..SwarmConfig::default()
    });
    let (run, lab) = simulate(cfg, writes(&["a", "b", "c", "d"]));
    assert_eq!(
        crash_faults(&lab).len(),
        1,
        "a budget of 1 must journal exactly one CrashState fault"
    );
    assert!(run.monitor_issues.is_empty());
}

#[test]
fn mod_crash_budget_one_journals_exactly_one_crash_state() {
    crash_budget_one();
}

#[test]
fn executor_crash_budget_one_journals_exactly_one_crash_state() {
    crash_budget_one();
}

#[test]
fn unknown_crash_state_identifier_fails_closed() {
    let (_, probe) = simulate(base_config(15), writes(&["a"]));
    let write = probe
        .entries()
        .into_iter()
        .find(|entry| entry.kind == EntryKind::FsWrite)
        .expect("the probe journals one FsWrite")
        .id;
    let cfg = base_config(15).with_fault_schedule(vec![SimFault::CrashState { write, state: 3 }]);
    let error = run_in(&Lab::default(), cfg, writes(&["a"])).unwrap_err();
    assert!(
        matches!(error, RuntimeError::Journal(JournalError::InvalidPayload(_))),
        "an unknown crash-state identifier must fail the run closed"
    );
}

#[test]
fn reorder_draw_is_selectable_and_deterministic() {
    let programs = || {
        vec![
            vec![
                Instruction::Send { to: 1, payload: 10 },
                Instruction::Send { to: 1, payload: 20 },
                Instruction::Send { to: 1, payload: 30 },
                Instruction::Done,
            ],
            vec![
                Instruction::Receive,
                Instruction::Receive,
                Instruction::Receive,
                Instruction::Done,
            ],
        ]
    };
    let run_root = |seed: u8, draw: bool| {
        let cfg = base_config(seed)
            .with_links(vec![(0, 1, LinkConfig { reorder_window: 2, ..LinkConfig::default() })])
            .with_reorder_draw(draw);
        simulate(cfg, programs()).1.root_hash()
    };
    let mut differing = 0usize;
    for seed in 0..16u8 {
        let newest = run_root(seed, false);
        let drawn = run_root(seed, true);
        let drawn_again = run_root(seed, true);
        assert_eq!(drawn, drawn_again, "the drawn window must be deterministic for one seed");
        if drawn != newest {
            differing += 1;
        }
    }
    assert!(
        differing > 0,
        "the seeded draw must sometimes differ from newest-first inside the window"
    );
}

fn crash_budget_two() {
    let cfg = || {
        base_config(14).with_swarm(SwarmConfig {
            crash_probability: Probability::one(),
            fault_classes_per_run: 2,
            ..SwarmConfig::default()
        })
    };
    let (run, a) = simulate(cfg(), writes(&["a", "b", "c", "d"]));
    let (_, b) = simulate(cfg(), writes(&["a", "b", "c", "d"]));
    assert_eq!(a.root_hash(), b.root_hash());
    let mut seen: Vec<CrashOperation> = Vec::new();
    for op in crash_faults(&a) {
        if !seen.contains(&op) {
            seen.push(op);
        }
    }
    assert!(seen.len() <= 2, "a budget of 2 must keep distinct crash classes at most 2");
    assert!(run.monitor_issues.is_empty());
}

#[test]
fn mod_crash_budget_two_is_deterministic_and_bounded() {
    crash_budget_two();
}

#[test]
fn executor_crash_budget_two_is_deterministic_and_bounded() {
    crash_budget_two();
}

#[test]
fn program_future_append_failure_rejects_the_run() {
    let mut program = ProgramFuture::new(
        Boundary::for_task(0),
        vec![Instruction::Receive, Instruction::Done],
    );
    let body: Body = Box::new(move |_, shared, _| program.poll(shared));
    let run = drive(&Lab::default(), base_config(77), best_effort(), vec![body], |shared| {
        shared.network().send_at(9, 0, 99, EntryHash([0xAA; 32]), 0, 0);
    });
    assert!(
        matches!(run, Err(RuntimeError::Journal(JournalError::MissingParent(_)))),
        "a poisoned run must be rejected, got: {run:?}"
    );
}

#[test]
fn boundary_record_journal_error_fills_slot() {
    let plan = Plan { replay: Vec::new(), fallback: Policy::Random, strict: false };
    let mut executor = Executor::new(base_config(78), LIMITS, plan, 0, Lab::default());
    let error =
        JournalError::NonMonotonicSequence { actor: ActorId(0), expected: 1, actual: 2 };
    Boundary::for_task(0).record_journal_error(executor.shared(), error);
    assert_eq!(
        executor.shared().journal_error(),
        Some(error),
        "the sink must preserve the typed error"
    );
    let later = JournalError::MissingParent(EntryHash([3; 32]));
    Boundary::for_task(0).record_journal_error(executor.shared(), later);
    assert_eq!(executor.shared().journal_error(), Some(error), "the first failure wins");
}

fn swarm_zero() {
    let (default, a) = simulate(base_config(10), two_task_programs());
    let (swarm, b) =
        simulate(base_config(10).with_swarm(SwarmConfig::default()), two_task_programs());
    assert_eq!(a.root_hash(), b.root_hash());
    assert_eq!(default.decisions, swarm.decisions);
}

#[test]
fn mod_swarm_zero_is_byte_identical_to_default() {
    swarm_zero();
}

#[test]
fn executor_swarm_zero_is_byte_identical_to_default() {
    swarm_zero();
}

fn swarm_crash_on_write() {
    let cfg = base_config(11).with_swarm(SwarmConfig {
        crash_probability: Probability::one(),
        ..SwarmConfig::default()
    });
    let programs = vec![vec![
        Instruction::FsWrite { path: "k".to_string(), value: 7 },
        Instruction::Done,
    ]];
    let (run, lab) = simulate(cfg, programs);
    assert!(
        !crash_faults(&lab).is_empty(),
        "a CrashState fault must be journaled after a sampled crash"
    );
    assert!(run.monitor_issues.is_empty());
}

#[test]
fn mod_swarm_crash_on_write_journals_crash_state() {
    swarm_crash_on_write();
}

#[test]
fn executor_swarm_crash_on_write_journals_crash_state() {
    swarm_crash_on_write();
}

fn swarm_features() {
    let cfg = || {
        base_config(12).with_swarm(SwarmConfig {
            drop_probability: chance(0.3),
            delay_probability: chance(0.3),
            max_delay_ticks: 5,
            crash_probability: chance(0.2),
            fault_classes_per_run: 2,
        })
    };
    let programs = || {
        vec![
            vec![
                Instruction::Send { to: 1, payload: 1 },
                Instruction::Send { to: 1, payload: 2 },
                Instruction::FsWrite { path: "k".to_string(), value: 3 },
                Instruction::Done,
            ],
            vec![Instruction::Receive, Instruction::Receive, Instruction::Done],
        ]
    };
    let (a, first) = simulate(cfg(), programs());
    let (b, second) = simulate(cfg(), programs());
    assert_eq!(first.root_hash(), second.root_hash());
    assert_eq!(a.decisions, b.decisions);
}

#[test]
fn mod_swarm_features_are_deterministic() {
    swarm_features();
}

#[test]
fn executor_swarm_features_are_deterministic() {
    swarm_features();
}

fn newest_first() {
    let mut net = SimNet::new();
    net.set_reorder_window(4);
    let now = 0u64;
    let send_id = |n: u8| EntryHash([n; 32]);
    let first = net.send_at(0, 1, 10, send_id(1), now, 0);
    let second = net.send_at(0, 1, 20, send_id(2), now, 0);
    assert!(first && second);
    assert_eq!(net.recv_at(1, now).unwrap().payload(), 20);
    assert_eq!(net.recv_at(1, now).unwrap().payload(), 10);
}

#[test]
fn mod_reorder_window_serves_newest_deliverable_first() {
    newest_first();
}

#[test]
fn executor_reorder_window_serves_newest_deliverable_first() {
    newest_first();
}

fn oldest_first() {
    let mut net = SimNet::new();
    let now = 0u64;
    let send_id = |n: u8| EntryHash([n; 32]);
    let _ = net.send_at(0, 1, 10, send_id(1), now, 0);
    let _ = net.send_at(0, 1, 20, send_id(2), now, 0);
    assert_eq!(net.recv_at(1, now).unwrap().payload(), 10);
}

#[test]
fn mod_fifo_default_serves_oldest_first() {
    oldest_first();
}

#[test]
fn executor_fifo_default_serves_oldest_first() {
    oldest_first();
}

// ---------------------------------------------------------------------------
// Links.
// ---------------------------------------------------------------------------

fn link_programs() -> Vec<Vec<Instruction>> {
    vec![
        vec![Instruction::Send { to: 1, payload: 7 }, Instruction::Done],
        vec![Instruction::Receive, Instruction::Done],
    ]
}

fn link_changes_root() {
    let seed = EntryHash([3; 32]);
    let base = RunConfig::builder().seed(seed).max_steps(512).build();
    let default_root = simulate(base, link_programs()).1.root_hash();
    let linked = RunConfig::builder()
        .seed(seed)
        .max_steps(512)
        .links(vec![(0, 1, LinkConfig { base_delay: 5, ..LinkConfig::default() })])
        .build();
    let linked_root = simulate(linked, link_programs()).1.root_hash();
    assert_ne!(default_root, linked_root, "a configured link must change the schedule");
}

#[test]
fn mod_configured_link_changes_journal_root() {
    link_changes_root();
}

#[test]
fn executor_configured_link_changes_journal_root() {
    link_changes_root();
}

fn link_draws() {
    let make = || {
        RunConfig::builder()
            .seed(EntryHash([9; 32]))
            .max_steps(512)
            .swarm(SwarmConfig {
                delay_probability: chance(0.5),
                max_delay_ticks: 3,
                ..SwarmConfig::default()
            })
            .links(vec![(
                0,
                1,
                LinkConfig {
                    jitter: 4,
                    loss_probability: chance(0.2),
                    ..LinkConfig::default()
                },
            )])
            .build()
    };
    let (a, first) = simulate(make(), link_programs());
    let (b, second) = simulate(make(), link_programs());
    assert_eq!(first.root_hash(), second.root_hash());
    assert_eq!(a.decisions, b.decisions);
}

#[test]
fn mod_link_and_swarm_draws_are_deterministic() {
    link_draws();
}

#[test]
fn executor_link_and_swarm_draws_are_deterministic() {
    link_draws();
}

fn bounded_link_run(seed: u8, policy: QueueFullPolicy) -> (RunResult, Lab) {
    let cfg = RunConfig::builder()
        .seed(EntryHash([seed; 32]))
        .max_steps(512)
        .links(vec![(
            0,
            1,
            LinkConfig { capacity: Some(1), queue_policy: policy, ..LinkConfig::default() },
        )])
        .build();
    let programs = vec![
        vec![
            Instruction::Send { to: 1, payload: 1 },
            Instruction::Send { to: 1, payload: 2 },
            Instruction::Send { to: 1, payload: 3 },
            Instruction::Done,
        ],
        vec![
            Instruction::Receive,
            Instruction::Receive,
            Instruction::Receive,
            Instruction::Done,
        ],
    ];
    simulate(cfg, programs)
}

fn dropped_messages(lab: &Lab) -> usize {
    lab.faults()
        .into_iter()
        .filter(|fault| matches!(fault, FaultPayload::DropMessage { .. }))
        .count()
}

#[test]
fn bounded_drop_link_journals_a_drop_fault() {
    let (run, lab) = bounded_link_run(31, QueueFullPolicy::Drop);
    assert!(
        dropped_messages(&lab) >= 1,
        "a full drop-policy queue must journal a Drop fault"
    );
    assert!(run.monitor_issues.is_empty());
}

#[test]
fn bounded_block_link_journals_backpressure_without_a_drop() {
    let (run, lab) = bounded_link_run(32, QueueFullPolicy::Block);
    assert_eq!(
        dropped_messages(&lab),
        0,
        "a block-policy queue must never journal a Drop fault"
    );
    assert!(
        lab.count(EntryKind::Block) >= 1,
        "a full block-policy queue must journal backpressure"
    );
    assert!(run.monitor_issues.is_empty());
}

// ---------------------------------------------------------------------------
// Scheduled faults.
// ---------------------------------------------------------------------------

fn find_send(lab: &Lab) -> Entry {
    lab.entries()
        .into_iter()
        .find(|e| e.kind == EntryKind::Send)
        .expect("Send entry exists")
}

#[test]
fn delay_fault_on_send_changes_deliver_at_and_marks_applied() {
    let programs = || {
        vec![
            vec![Instruction::Send { to: 1, payload: 99 }, Instruction::Done],
            vec![
                Instruction::Receive,
                Instruction::ReadClock,
                Instruction::Outcome,
                Instruction::Done,
            ],
        ]
    };
    let (first, first_lab) = simulate(config(42, 256), programs());
    let send_id = find_send(&first_lab).id;
    assert!(
        !first.applied_faults.contains(&send_id),
        "first run must not mark delay as applied"
    );
    let delayed_cfg = |ticks: u64| {
        RunConfig::builder()
            .seed(EntryHash([42; 32]))
            .policy(Policy::Replay)
            .max_steps(256)
            .fault_schedule(vec![SimFault::Delay { send: send_id, ticks }])
            .build()
    };
    let (delayed, delayed_lab) = replay(delayed_cfg(7), programs(), first.decisions.clone());
    assert!(
        delayed.applied_faults.contains(&send_id),
        "Delay fault must be marked applied, not a lie"
    );
    assert!(
        delayed.monitor_issues.is_empty(),
        "monitor issues: {:?}",
        delayed.monitor_issues
    );
    assert_eq!(first.registers.len(), 2);
    assert_eq!(delayed.registers.len(), 2);
    assert!(
        delayed.registers[1] > first.registers[1],
        "delayed clock {} must exceed baseline {}",
        delayed.registers[1],
        first.registers[1]
    );
    assert_eq!(delayed.registers[1], 7, "exact injected delay must be visible at ReadClock");
    assert_ne!(
        first_lab.root_hash(),
        delayed_lab.root_hash(),
        "delay changes the causal DAG"
    );
    let (zero, zero_lab) = replay(delayed_cfg(0), programs(), first.decisions.clone());
    assert!(zero.applied_faults.contains(&send_id), "zero delay still counts as applied");
    assert_eq!(
        zero_lab.root_hash(),
        first_lab.root_hash(),
        "delay 0 keeps byte-identical journals"
    );
}

#[test]
fn duplicate_send_yields_two_recvs_and_one_fault() {
    let programs = || {
        vec![
            vec![Instruction::Send { to: 1, payload: 99 }, Instruction::Done],
            vec![Instruction::Receive, Instruction::Receive, Instruction::Done],
        ]
    };
    let (_, probe) = simulate(config(42, 512), programs());
    let send = find_send(&probe);
    let dup_cfg = |policy: Policy| {
        RunConfig::builder()
            .seed(EntryHash([42; 32]))
            .policy(policy)
            .max_steps(512)
            .fault_schedule(vec![SimFault::Duplicate { send: send.id }])
            .build()
    };
    let (first, first_lab) = simulate(dup_cfg(Policy::Random), programs());
    assert!(
        first.applied_faults.contains(&send.id),
        "Duplicate fault must be marked applied"
    );
    assert!(first.monitor_issues.is_empty(), "monitor issues: {:?}", first.monitor_issues);
    assert!(first.journal_error.is_none(), "journal must stay clean: {:?}", first.journal_error);
    assert_eq!(first_lab.count(EntryKind::Recv), 2, "duplicate must deliver two copies");
    let faults: Vec<Entry> = first_lab
        .entries()
        .into_iter()
        .filter(|e| {
            matches!(
                &e.payload,
                Some(EntryPayload::Fault(FaultPayload::DuplicateMessage { .. }))
            )
        })
        .collect();
    assert_eq!(faults.len(), 1, "exactly one duplicate fault");
    match &faults[0].payload {
        Some(EntryPayload::Fault(FaultPayload::DuplicateMessage { message_id, copy_ordinal })) => {
            assert_eq!(*copy_ordinal, 1);
            assert_eq!(faults[0].parents.as_slice(), &[send.id]);
            match &send.payload {
                Some(EntryPayload::Send { message_id: sent, .. }) => {
                    assert_eq!(message_id, sent);
                }
                other => panic!("send entry has wrong payload: {other:?}"),
            }
        }
        other => panic!("expected DuplicateMessage, got {other:?}"),
    }
    assert_eq!(first.outcome, RunOutcome::Completed, "two receives must complete");
    let (second, second_lab) = simulate(dup_cfg(Policy::Random), programs());
    assert_eq!(
        first_lab.root_hash(),
        second_lab.root_hash(),
        "duplicate must stay deterministic"
    );
    assert_eq!(first.decisions, second.decisions);
    let strict_lab = Lab::default();
    Simulation::with_replay_strict(
        dup_cfg(Policy::Replay),
        LIMITS,
        programs(),
        first.decisions.clone(),
        strict_lab.clone(),
    )
    .run(best_effort())
    .expect("strict replay of duplicate must pass");
    assert_eq!(strict_lab.root_hash(), first_lab.root_hash(), "strict replay must match");
}

// ---------------------------------------------------------------------------
// Protection and monitors.
// ---------------------------------------------------------------------------

#[test]
fn direct_executor_required_enforces_belt() {
    let cfg = RunConfig::builder().seed(EntryHash([9; 32])).max_steps(16).build();
    let result =
        drive(&Lab::default(), cfg, protection(ProtectionMode::Required), Vec::new(), |_| {});
    assert!(
        matches!(result, Err(RuntimeError::Belt(_))),
        "direct Executor Required must enforce belt, got {result:?}"
    );
}

#[test]
fn direct_executor_best_effort_reports_protection() {
    let cfg = RunConfig::builder().seed(EntryHash([10; 32])).max_steps(16).build();
    let run = drive(&Lab::default(), cfg, best_effort(), Vec::new(), |_| {})
        .expect("BestEffort direct executor must succeed");
    assert!(matches!(
        run.protection,
        BeltStatus::Active { .. }
            | BeltStatus::NotArmed
            | BeltStatus::Unavailable
            | BeltStatus::Failed(_)
    ));
}

fn spawn_watcher() -> (Monitor, Rc<RefCell<bool>>) {
    let saw = Rc::new(RefCell::new(false));
    let seen = Rc::clone(&saw);
    let monitor: Monitor = Box::new(move |entries, start| {
        if start == 0 && entries.iter().any(|e| e.kind == EntryKind::Spawn) {
            *seen.borrow_mut() = true;
        }
        OnlineAction::Continue
    });
    (monitor, saw)
}

#[test]
fn monitor_sees_initial_spawn_entries() {
    let cfg = RunConfig::builder().seed(EntryHash([11; 32])).max_steps(32).build();
    let (monitor, saw) = spawn_watcher();
    let lab = Lab::watched(monitor);
    let bodies = (0..2)
        .map(|_| {
            once(|b, shared| {
                let _ = b.outcome(shared, 42);
            })
        })
        .collect();
    drive(&lab, cfg, best_effort(), bodies, |_| {}).expect("run with prefix monitor");
    assert!(*saw.borrow(), "monitor must see Spawn at entry 0");
}

#[test]
fn monitor_sees_initial_spawn_prefix() {
    let cfg = RunConfig::builder().seed(EntryHash([7; 32])).max_steps(32).build();
    let programs = vec![vec![Instruction::Done], vec![Instruction::Done]];
    let (monitor, saw) = spawn_watcher();
    let lab = Lab::watched(monitor);
    run_in(&lab, cfg, programs).expect("run with prefix monitor");
    assert!(*saw.borrow(), "monitor must observe Spawn at entry 0");
}

#[test]
fn poisoned_journal_cannot_yield_a_run() {
    let bodies = vec![once(|b, shared| {
        let error = JournalError::InvalidPayload(PayloadFault::Refused { reason: 1 });
        b.record_journal_error(shared, error);
    })];
    let run = drive(&Lab::default(), config(23, 64), best_effort(), bodies, |_| {});
    assert!(
        matches!(run, Err(RuntimeError::Journal(_))),
        "a poisoned run must not yield a RunResult: {run:?}"
    );
}

fn mini_kv_programs() -> Vec<Vec<Instruction>> {
    vec![
        vec![
            Instruction::Send { to: 1, payload: 42 },
            Instruction::Send { to: 2, payload: 100 },
            Instruction::Done,
        ],
        vec![Instruction::Receive, Instruction::Send { to: 2, payload: 42 }, Instruction::Done],
        vec![Instruction::Receive, Instruction::Outcome, Instruction::Done],
    ]
}

#[test]
fn clean_mini_kv_run_produces_zero_monitor_issues() {
    let (run, _) = simulate(config(7, 256), mini_kv_programs());
    assert!(run.monitor_issues.is_empty(), "monitor issues: {:?}", run.monitor_issues);
}

#[test]
fn runtime_journals_spawn_wake_timer_and_clock_read_entries() {
    let programs = vec![
        vec![Instruction::ReadClock, Instruction::Sleep(5), Instruction::Done],
        vec![Instruction::Sleep(1), Instruction::ReadClock, Instruction::Done],
    ];
    let (run, lab) = simulate(config(8, 128), programs);
    for kind in [EntryKind::Spawn, EntryKind::ClockRead, EntryKind::TimerFire, EntryKind::Wake] {
        assert!(lab.kinds().contains(&kind), "{kind:?} must be journaled");
    }
    assert!(run.monitor_issues.is_empty());
}

#[test]
fn replay_follows_recorded_decision_sequence() {
    let cfg = config(9, 256);
    let (original, original_lab) = simulate(cfg.clone(), mini_kv_programs());
    let (replayed, replayed_lab) = replay(
        cfg.with_policy(Policy::Replay),
        mini_kv_programs(),
        original.decisions.clone(),
    );
    assert_eq!(replayed_lab.root_hash(), original_lab.root_hash());
    assert!(replayed.monitor_issues.is_empty());
}

fn inputs_of(lab: &Lab) -> Vec<(u64, u64, CanonicalValue)> {
    lab.entries()
        .into_iter()
        .filter_map(|entry| match entry.payload {
            Some(EntryPayload::InputStep { generator, replay, value }) => {
                Some((generator, replay, value))
            }
            _ => None,
        })
        .collect()
}

#[test]
fn input_step_journals_real_generator_and_replay_keys() {
    let programs =
        vec![vec![Instruction::Input { generator: 7, replay: 3, value: 99 }, Instruction::Done]];
    let (run, lab) = simulate(config(10, 128), programs);
    let inputs = inputs_of(&lab);
    assert_eq!(inputs.len(), 1);
    assert_eq!(inputs[0].0, 7);
    assert_eq!(inputs[0].1, 3);
    assert_eq!(inputs[0].2, CanonicalValue::Unsigned(99));
    assert!(run.monitor_issues.is_empty());
}

#[test]
fn set_still_journals_zeroed_keys_compatibly() {
    let programs = vec![vec![Instruction::SetValue(42), Instruction::Done]];
    let (run, lab) = simulate(config(11, 128), programs);
    let inputs = inputs_of(&lab);
    assert_eq!(inputs.len(), 1);
    assert_eq!(inputs[0].0, 0);
    assert_eq!(inputs[0].1, 0);
    assert_eq!(inputs[0].2, CanonicalValue::Unsigned(42));
    assert!(run.monitor_issues.is_empty());
}

#[test]
fn belt_hook_is_unavailable_without_the_feature() {
    assert_eq!(activate_process_belt(), BeltStatus::Unavailable);
}

fn guarded(seed: u8, mode: ProtectionMode) -> Result<RunResult, RuntimeError> {
    let cfg = RunConfig::builder().seed(EntryHash([seed; 32])).max_steps(16).build();
    Simulation::new(cfg, LIMITS, vec![vec![Instruction::Done]], Lab::default())
        .run(protection(mode))
}

#[test]
fn required_protection_fails_when_belt_not_active() {
    let result = guarded(1, ProtectionMode::Required);
    assert!(
        matches!(result, Err(RuntimeError::Belt(BeltStatus::Unavailable))),
        "Required + Unavailable must be Belt, got {result:?}"
    );
}

#[test]
fn best_effort_with_any_belt_succeeds() {
    let result = guarded(2, ProtectionMode::BestEffort);
    assert!(result.is_ok(), "BestEffort must not fail on belt, got {result:?}");
}

#[test]
fn best_effort_reports_protection_status() {
    let run = guarded(5, ProtectionMode::BestEffort).expect("BestEffort must succeed");
    assert!(
        matches!(
            run.protection,
            BeltStatus::Active { .. }
                | BeltStatus::NotArmed
                | BeltStatus::Unavailable
                | BeltStatus::Failed(_)
        ),
        "protection must be structured, got {:?}",
        run.protection
    );
}

#[test]
fn required_rejects_incomplete_installation() {
    let result = guarded(6, ProtectionMode::Required);
    assert!(
        matches!(result, Err(RuntimeError::Belt(_))),
        "Required without belt must be Belt error, got {result:?}"
    );
}

#[test]
fn required_with_active_belt_runs_and_a_failed_trap_rejects() {
    let run_with = |trap_error: Option<String>| {
        let cfg = RunConfig::builder().seed(EntryHash([6; 32])).max_steps(16).build();
        let guard = Protection {
            mode: ProtectionMode::Required,
            trap_error,
            status: BeltStatus::Active { layers: 2 },
        };
        Simulation::new(cfg, LIMITS, vec![vec![Instruction::Done]], Lab::default()).run(guard)
    };
    let run = run_with(None).expect("an active belt satisfies Required");
    assert_eq!(run.protection, BeltStatus::Active { layers: 2 });
    match run_with(Some("trap".to_string())) {
        Err(RuntimeError::Belt(BeltStatus::Failed(reason))) => assert_eq!(reason, "trap"),
        other => panic!("a failed trap must reject the run, got {other:?}"),
    }
}

fn halt_on_99() -> Monitor {
    Box::new(|entries, start| {
        for entry in entries.iter().skip(start) {
            if let Some(EntryPayload::Outcome { value: CanonicalValue::Unsigned(99), .. }) =
                &entry.payload
            {
                return OnlineAction::Halt { reason: HaltReason::new("outcome 99 forbidden") };
            }
        }
        OnlineAction::Continue
    })
}

#[test]
fn monitor_halts_violating_run_and_is_deterministic() {
    let programs = || {
        vec![vec![
            Instruction::SetValue(99),
            Instruction::Outcome,
            Instruction::SetValue(1),
            Instruction::Outcome,
            Instruction::Done,
        ]]
    };
    let cfg = RunConfig::builder().seed(EntryHash([11; 32])).max_steps(64).build();
    let halted_lab = Lab::watched(halt_on_99());
    let halted = run_in(&halted_lab, cfg.clone(), programs())
        .expect("halted run should succeed as MonitorHalt, not error");
    match &halted.outcome {
        RunOutcome::MonitorHalt(reason) => {
            assert_eq!(reason.as_str(), "outcome 99 forbidden");
        }
        other => panic!("outcome must be MonitorHalt, got {other:?}"),
    }
    assert!(halted.steps < 64, "halted run must stop before max_steps, steps {}", halted.steps);
    let (full, full_lab) = simulate(cfg, programs());
    assert_eq!(full.outcome, RunOutcome::Completed);
    assert!(full.steps > halted.steps);
    assert_ne!(full_lab.root_hash(), halted_lab.root_hash());
    let replay_cfg = |max_steps: usize| {
        RunConfig::builder()
            .seed(EntryHash([11; 32]))
            .policy(Policy::Replay)
            .max_steps(max_steps)
            .build()
    };
    let (_, replayed_lab) =
        replay(replay_cfg(halted.steps), programs(), halted.decisions.clone());
    assert_eq!(
        replayed_lab.root_hash(),
        halted_lab.root_hash(),
        "partial journal must be byte-identical on replay"
    );
    let again_lab = Lab::watched(halt_on_99());
    let again = Simulation::with_replay(
        replay_cfg(64),
        LIMITS,
        programs(),
        halted.decisions.clone(),
        again_lab.clone(),
    )
    .run(best_effort())
    .expect("replay with monitor");
    assert_eq!(again_lab.root_hash(), halted_lab.root_hash());
    assert!(matches!(again.outcome, RunOutcome::MonitorHalt(_)));
}

#[test]
fn no_monitor_run_unchanged() {
    let programs =
        || vec![vec![Instruction::SetValue(7), Instruction::Outcome, Instruction::Done]];
    let cfg = RunConfig::builder().seed(EntryHash([13; 32])).max_steps(32).build();
    let (without, without_lab) = simulate(cfg.clone(), programs());
    let watched_lab = Lab::watched(Box::new(|_, _| OnlineAction::Continue));
    let watched = run_in(&watched_lab, cfg, programs()).expect("with never-halt monitor");
    assert_eq!(without_lab.root_hash(), watched_lab.root_hash());
    assert_eq!(without.decisions, watched.decisions);
    assert_eq!(without.outcome, watched.outcome);
}

#[test]
fn with_replay_strict_forces_replay_policy() {
    let cfg = config(99, 16);
    let programs = || vec![vec![Instruction::Done]];
    let strict = |decisions: Vec<usize>, lab: &Lab| {
        Simulation::with_replay_strict(cfg.clone(), LIMITS, programs(), decisions, lab.clone())
            .run(best_effort())
    };
    let empty = strict(Vec::new(), &Lab::default());
    assert!(
        empty.is_ok() || matches!(empty, Err(RuntimeError::StrictReplay(_))),
        "strict with forced Replay must not silently ignore policy, got {empty:?}"
    );
    let (base, base_lab) = simulate(cfg.clone(), programs());
    let strict_lab = Lab::default();
    strict(base.decisions.clone(), &strict_lab)
        .expect("strict replay with forced Replay must succeed");
    assert_eq!(strict_lab.root_hash(), base_lab.root_hash());
}

#[test]
fn with_replay_strict_rejects_trailing_via_violation() {
    let cfg = RunConfig::builder().seed(EntryHash([11; 32])).max_steps(64).build();
    let programs =
        || vec![vec![Instruction::SetValue(1), Instruction::Outcome, Instruction::Done]];
    let (base, _) = simulate(cfg.clone(), programs());
    let mut trailing = base.decisions.clone();
    trailing.push(0);
    trailing.push(1);
    let err = Simulation::with_replay_strict(cfg, LIMITS, programs(), trailing, Lab::default())
        .run(best_effort())
        .expect_err("trailing replay must be StrictReplay");
    assert!(matches!(err, RuntimeError::StrictReplay(_)));
}

#[test]
fn sim_schemas_are_bound_nonzero_and_distinct() {
    assert_ne!(outcome_schema(), EntryHash([0u8; 32]), "outcome must not be zeroed");
    assert_ne!(assert_schema(), EntryHash([0u8; 32]), "assert must not be zeroed");
    assert_ne!(outcome_schema(), assert_schema(), "outcome and assert digests must differ");
    assert_eq!(
        outcome_schema(),
        EntryHash(*blake3::hash(b"ldgr.sim.outcome.v1").as_bytes()),
        "outcome binds its domain string"
    );
    assert_eq!(
        assert_schema(),
        EntryHash(*blake3::hash(b"ldgr.sim.assert.v1").as_bytes()),
        "assert binds its domain string"
    );
}

// ---------------------------------------------------------------------------
// Single-actor backend.
// ---------------------------------------------------------------------------

fn backend(seed: u8) -> (SimBackend<Lab>, Lab) {
    let lab = Lab::seeded(EntryHash([seed; 32]));
    (SimBackend::new(lab.clone()), lab)
}

fn message(from: usize, to: usize, value: u64, deliver_at: u64) -> Message {
    Message {
        from,
        to,
        content: value.to_le_bytes().to_vec(),
        message_id: MessageId::new(ActorId(from as u32), 0),
        send_id: EntryHash([0; 32]),
        deliver_at,
    }
}

#[test]
fn effects_boundary_journals_a_tiny_sut() {
    let lab = Lab::seeded(EntryHash([5; 32]));
    let mut effects = SimBackend::for_actor(lab.clone(), ActorId(1));
    let drawn = effects.next_u64(StreamId(0));
    assert_ne!(drawn, 0, "seed tree must serve a deterministic draw");
    let now = effects.clock();
    let _ = effects.send(message(1, 2, 42, now));
    let write_id = effects.write("k", 7).unwrap();
    let _ = effects.fsync().unwrap();
    effects.sleep(10);
    assert!(lab.entries().iter().any(|e| {
        matches!(&e.payload, Some(EntryPayload::RngDraw { stream: StreamId(0), .. }))
    }));
    for kind in [EntryKind::Send, EntryKind::FsWrite, EntryKind::FsFsync, EntryKind::TimerSet] {
        assert!(lab.kinds().contains(&kind), "{kind:?} must be journaled");
    }
    assert!(lab.entries().iter().any(|e| e.id == write_id));
    assert!(lab.clone().audit().is_empty(), "boundary-journaled run must be causally sound");
    assert!(effects.journal_error().is_none());
}

#[test]
fn app_streams_are_independent_in_sim_backend() {
    let draws = |other: StreamId, other_count: u32, count: u32| -> Vec<u64> {
        let (mut backend, _) = backend(9);
        for _ in 0..other_count {
            let _ = backend.next_u64(other);
        }
        (0..count).map(|_| backend.next_u64(StreamId(1))).collect()
    };
    let sparse = draws(StreamId(0), 1, 3);
    let dense = draws(StreamId(0), 9, 3);
    assert_eq!(
        dense, sparse,
        "stream-1 draws must be identical regardless of stream-0 consumption"
    );
}

#[test]
fn journal_snapshot_matches_live_journal_and_stays_fixed() {
    let (mut backend, lab) = backend(11);
    let _ = backend.next_u64(StreamId(0));
    let before = lab.entries();
    let root_before = lab.root_hash();
    assert_eq!(before.len(), 1, "one draw must journal exactly one entry");
    let _ = backend.next_u64(StreamId(0));
    let after = lab.entries();
    assert_ne!(lab.root_hash(), root_before);
    assert_eq!(before.len(), 1, "snapshot must not grow with the live journal");
    assert_eq!(after.len(), 2);
    assert_eq!(after[0].id, before[0].id);
    assert!(backend.journal_error().is_none());
}

#[test]
fn inline_sleep_matches_quiescent_timer_chain() {
    let (mut backend, lab) = backend(21);
    backend.sleep(7);
    assert_eq!(
        lab.kinds(),
        vec![EntryKind::TimerSet, EntryKind::TimerFire, EntryKind::Wake],
        "inline sleep journals exactly one timer chain"
    );
    let entries = lab.entries();
    match &entries[1].payload {
        Some(EntryPayload::TimerFire { .. }) => {}
        other => panic!("second entry must be TimerFire, got {other:?}"),
    }
    assert_eq!(
        entries[1].parents.as_slice(),
        &[entries[0].id],
        "TimerFire parents the TimerSet enabler"
    );
    assert_eq!(entries[2].parents.as_slice(), &[entries[1].id], "Wake chains the TimerFire");
    match &entries[2].payload {
        Some(EntryPayload::Wake(WakePayload::TimerReady { .. })) => {}
        other => panic!("third entry must be TimerReady wake, got {other:?}"),
    }
    assert!(lab.clone().audit().is_empty(), "timer chain must be causally sound");
    let (_, executor_lab) = drive_plain(21, 64, vec![sleeper(7, |_, _| {})]);
    let chain: Vec<Entry> = executor_lab
        .entries()
        .into_iter()
        .filter(|e| {
            matches!(e.kind, EntryKind::TimerSet | EntryKind::TimerFire | EntryKind::Wake)
        })
        .collect();
    assert_eq!(chain.len(), 3, "executor journals one timer chain");
    assert_eq!(chain[0].kind, EntryKind::TimerSet);
    assert_eq!(chain[1].kind, EntryKind::TimerFire);
    assert_eq!(chain[2].kind, EntryKind::Wake);
    assert_eq!(chain[1].parents.as_slice(), &[chain[0].id]);
    assert_eq!(chain[2].parents.as_slice(), &[chain[1].id]);
}

#[test]
fn record_only_net_and_fs_are_deterministic() {
    let run = || {
        let (mut backend, lab) = backend(0);
        let now = 0u64;
        assert!(backend.send(message(0, 1, 7, now)));
        assert_eq!(backend.recv(1, now).map(|m| m.payload()), Some(7));
        assert!(backend.write("k", 7).is_ok());
        backend.crash();
        assert_eq!(
            backend.read("k").ok().flatten(),
            None,
            "an unsynced write must be dropped by the crash"
        );
        assert!(backend.write("j", 9).is_ok());
        assert!(backend.fsync().is_ok());
        backend.crash();
        assert_eq!(
            backend.read("j").ok().flatten(),
            Some(9),
            "a synced write must survive the crash"
        );
        lab
    };
    let first = run();
    let second = run();
    assert_eq!(
        first.root_hash(),
        second.root_hash(),
        "record-only crossings must journal identically across runs"
    );
    for kind in [EntryKind::Send, EntryKind::Recv, EntryKind::FsWrite, EntryKind::FsFsync] {
        assert!(first.kinds().contains(&kind));
    }
}

#[test]
fn backend_words_are_those_of_the_seeded_generator() {
    let (mut backend, lab) = backend(3);
    let seed = lab.clone().stream_seed("app/4");
    let mut rng = rand_chacha::ChaCha20Rng::from_seed(seed);
    for _ in 0..20 {
        assert_eq!(backend.next_u64(StreamId(4)), rng.next_u64());
    }
}

#[test]
fn backend_publishes_ticks_to_an_attached_sink() {
    let (mut backend, _) = backend(3);
    assert_eq!(backend.published_ticks(), None);
    backend.attach_tick_sink(0);
    backend.sleep(12);
    assert_eq!(backend.published_ticks(), Some(12));
    assert_eq!(backend.clock(), 12);
}

#[test]
fn backend_send_with_origin_is_inherited_by_the_receive() {
    let (mut backend, lab) = backend(3);
    assert!(backend.send_loc(message(0, 1, 5, 0), here(7)));
    assert!(backend.recv(1, 0).is_some());
    let origins = backend.origins_snapshot();
    assert_eq!(origins.len(), 2);
    assert_eq!(origins[0].1, here(7));
    assert_eq!(origins[1].1, here(7));
    let entries = lab.entries();
    assert_eq!(backend.origin_of(&entries[1].id), Some(here(7)));
    assert_eq!(backend.origin_of(&EntryHash([9; 32])), None);
}

#[test]
fn backend_traces_storage_origins() {
    let (mut backend, _) = backend(4);
    let id = backend.write_loc("k", 1, here(2)).unwrap();
    let flush = backend.fsync_loc(here(3)).unwrap();
    backend.crash_loc(here(4));
    assert_eq!(backend.origin_of(&id), Some(here(2)));
    assert_eq!(backend.origin_of(&flush), Some(here(3)));
    assert_eq!(backend.origins_snapshot().len(), 3);
}

#[test]
fn backend_keeps_the_first_failure_and_refuses_unjournaled_sends() {
    let (mut backend, lab) = backend(4);
    backend.network().send_at(9, 0, 99, EntryHash([0xAA; 32]), 0, 0);
    assert!(backend.recv(0, 0).is_some(), "the message itself is delivered");
    assert_eq!(
        backend.journal_error(),
        Some(JournalError::MissingParent(EntryHash([0xAA; 32])))
    );
    lab.0.borrow_mut().heads.insert(0, EntryHash([0xBB; 32]));
    assert!(!backend.send(message(0, 1, 1, 0)), "a send that cannot be journaled is refused");
    assert!(!backend.has_ready_message(1, 0), "and never reaches the network");
    assert_eq!(
        backend.journal_error(),
        Some(JournalError::MissingParent(EntryHash([0xAA; 32]))),
        "the first failure wins"
    );
}

#[test]
fn backend_drawn_window_follows_the_seed() {
    let order = |seed: u8| -> Vec<u64> {
        let (mut backend, _) = backend(seed);
        backend.set_reorder_draw(true);
        backend.network().set_reorder_window(2);
        for value in [10u64, 20, 30, 40] {
            backend.network().send_at(0, 1, value, EntryHash([0; 32]), 0, 0);
        }
        (0..4).filter_map(|_| backend.recv(1, 0).map(|m| m.payload())).collect()
    };
    assert_eq!(order(5), order(5));
    assert!((0..16u8).any(|seed| order(seed) != vec![40, 30, 20, 10]));
}

// ---------------------------------------------------------------------------
// Storage errors.
// ---------------------------------------------------------------------------

#[test]
fn fs_error_into_journal_round_trips() {
    let err = JournalError::MissingParent(EntryHash([1u8; 32]));
    let fs_err = FsError(err);
    assert_eq!(fs_err.into_journal(), err);
}

#[test]
fn fs_error_preserves_source_and_display() {
    let journal_err = JournalError::InvalidPayload(PayloadFault::Refused { reason: 4 });
    let fs_err = FsError(journal_err);
    assert_eq!(fs_err.source(), &journal_err);
    assert_eq!(fs_err.source().message(), journal_err.message());
    let from: FsError = journal_err.into();
    assert_eq!(from.0, journal_err);
    assert_eq!(from.into_journal(), journal_err);
}

// ---------------------------------------------------------------------------
// Guest calls.
// ---------------------------------------------------------------------------

#[test]
fn gather_write_payload_boundaries() {
    let mut memory = vec![0u8; 512];
    memory[32..36].copy_from_slice(&100u32.to_le_bytes());
    memory[36..40].copy_from_slice(&4u32.to_le_bytes());
    memory[100..104].copy_from_slice(&[0x2a, 0x2b, 0x2c, 0x2d]);
    memory[40..44].copy_from_slice(&200u32.to_le_bytes());
    memory[44..48].copy_from_slice(&2u32.to_le_bytes());
    memory[200..202].copy_from_slice(&[0x0e, 0x0f]);

    let payload = gather_write_payload(&memory, 32, 2).expect("gather");
    assert_eq!(payload, [0x2a, 0x2b, 0x2c, 0x2d, 0x0e, 0x0f]);
    assert!(gather_write_payload(&memory, 32, 0).expect("empty").is_empty());
    assert_eq!(
        gather_write_payload(&memory, 32, MAX_WASI_IOVECS + 1),
        Err(Some(WASI_ERRNO_INVAL))
    );
    memory[36..40].copy_from_slice(&((MAX_WASI_WRITE_BYTES + 1) as u32).to_le_bytes());
    assert_eq!(gather_write_payload(&memory, 32, 1), Err(Some(WASI_ERRNO_INVAL)));
    memory[36..40].copy_from_slice(&500u32.to_le_bytes());
    assert_eq!(gather_write_payload(&memory, 32, 1), Err(None));
    assert_eq!(gather_write_payload(&memory, 500, 2), Err(None));
    assert_eq!(gather_write_payload(&memory, u32::MAX, 1), Err(None));
    let payload = gather_write_payload(&memory, 32, 0).expect("gather");
    u32::try_from(payload.len()).expect("bounded payload fits u32");
}

#[test]
fn record_write_failure_maps_to_io_errno_and_keeps_typed_error() {
    let (mut backend, _) = backend(1);
    let injected = JournalError::InvalidPayload(PayloadFault::Refused { reason: 7 });
    let errno = record_write_failure(&mut backend, FsError(injected));
    assert_eq!(errno, WASI_ERRNO_IO);
    assert_eq!(backend.journal_error(), Some(injected), "typed error must be recorded");
    let second =
        record_write_failure(&mut backend, FsError(JournalError::MissingParent(EntryHash([3; 32]))));
    assert_eq!(second, WASI_ERRNO_IO);
    assert_eq!(backend.journal_error(), Some(injected), "first failure must win");
}

fn put(memory: &mut [u8], at: usize, bytes: &[u8]) {
    memory[at..at + bytes.len()].copy_from_slice(bytes);
}

fn vector(memory: &mut [u8], at: usize, ptr: u32, len: u32) {
    put(memory, at, &ptr.to_le_bytes());
    put(memory, at + 4, &len.to_le_bytes());
}

#[test]
fn fd_write_host_error_and_valid_paths() {
    let (mut backend, lab) = backend(0x42);
    let mut memory = vec![0u8; 65536];
    let mut stdout = Vec::new();
    vector(&mut memory, 32, 100, 4);
    put(&mut memory, 100, &[1, 2, 3, 4]);
    let r = fd_write(&mut backend, &mut memory, &mut stdout, 1, None, 32, 1, 64);
    assert_eq!(r, Ok(0));
    assert_eq!(&memory[64..68], &4u32.to_le_bytes());
    assert_eq!(stdout, [1, 2, 3, 4]);

    let r =
        fd_write(&mut backend, &mut memory, &mut stdout, 1, None, 32, MAX_WASI_IOVECS + 1, 64);
    assert_eq!(r, Ok(WASI_ERRNO_INVAL));

    put(&mut memory, 200, b"/data");
    let request = open_request(&memory, 200, 5, (1 << 1) | (1 << 6), 0).expect("open");
    assert_eq!(request.key, "data");
    assert!(request.read && request.write && !request.seek && !request.append);
    assert_eq!(open_reply(&mut memory, Some(3), 208), Ok(0));
    assert_eq!(&memory[208..212], &3u32.to_le_bytes());

    vector(&mut memory, 32, 64, 8);
    put(&mut memory, 64, &[7u8; 8]);
    let r = fd_write(&mut backend, &mut memory, &mut stdout, 3, Some("data"), 32, 1, 64);
    assert_eq!(r, Ok(0));
    assert_eq!(&memory[64..68], &8u32.to_le_bytes());
    assert!(lab.kinds().contains(&EntryKind::FsWrite));

    put(&mut memory, 200, b"/rd");
    let request = open_request(&memory, 200, 3, 1 << 1, 0).expect("open");
    assert!(request.read && !request.write);
    let writes = lab.count(EntryKind::FsWrite);
    let r = fd_write(&mut backend, &mut memory, &mut stdout, 4, None, 32, 1, 64);
    assert_eq!(r, Ok(8), "a write on a read-only handle must fail closed");
    assert_eq!(lab.count(EntryKind::FsWrite), writes);
}

#[test]
fn guest_write_failures_surface() {
    let (mut backend, lab) = backend(2);
    let mut memory = vec![0u8; 256];
    let mut stdout = Vec::new();
    vector(&mut memory, 0, 100, 3);
    put(&mut memory, 100, b"abc");
    assert_eq!(
        fd_write(&mut backend, &mut memory, &mut stdout, 1, None, 0, 1, 253),
        Err(Trap::Written)
    );
    assert_eq!(stdout, b"abc", "the text was captured before the trap");
    assert_eq!(
        fd_write(&mut backend, &mut memory, &mut stdout, 2, None, 250, 1, 0),
        Err(Trap::WriteVector)
    );
    lab.0.borrow_mut().heads.insert(0, EntryHash([0xBB; 32]));
    assert_eq!(
        fd_write(&mut backend, &mut memory, &mut stdout, 5, Some("k"), 0, 1, 64),
        Ok(WASI_ERRNO_IO)
    );
    assert_eq!(
        backend.journal_error(),
        Some(JournalError::MissingParent(EntryHash([0xBB; 32])))
    );
}

#[test]
fn guest_read_scatters_the_stored_value() {
    let (mut backend, _) = backend(2);
    let mut memory = vec![0u8; 256];
    backend.write("k", 0x0807_0605_0403_0201).unwrap();
    vector(&mut memory, 0, 100, 3);
    vector(&mut memory, 8, 0, 0);
    vector(&mut memory, 16, 120, 64);
    assert_eq!(fd_read(&mut backend, &mut memory, Some("k"), 0, 3, 64), Ok(0));
    assert_eq!(&memory[64..68], &8u32.to_le_bytes());
    assert_eq!(&memory[100..103], &[1, 2, 3]);
    assert_eq!(&memory[120..125], &[4, 5, 6, 7, 8]);
    assert_eq!(fd_read(&mut backend, &mut memory, Some("none"), 0, 3, 64), Ok(0));
    assert_eq!(&memory[64..68], &0u32.to_le_bytes());
    assert_eq!(fd_read(&mut backend, &mut memory, None, 0, 3, 64), Ok(8));
    assert_eq!(
        fd_read(&mut backend, &mut memory, Some("k"), 0, MAX_WASI_IOVECS + 1, 64),
        Ok(WASI_ERRNO_INVAL)
    );
    assert_eq!(
        fd_read(&mut backend, &mut memory, Some("k"), 250, 1, 64),
        Err(Trap::ReadVector(VectorFault::Outside))
    );
    vector(&mut memory, 0, 255, 4);
    assert_eq!(
        fd_read(&mut backend, &mut memory, Some("k"), 0, 1, 64),
        Err(Trap::ReadBuffer(SpanFault::Outside))
    );
    vector(&mut memory, 0, 100, 8);
    assert_eq!(fd_read(&mut backend, &mut memory, Some("k"), 0, 1, 254), Err(Trap::ReadCount));
}

#[test]
fn guest_messages_and_keys_cross_the_backend() {
    let (mut backend, _) = backend(2);
    assert_eq!(ledger_send(&mut backend, 1, 77), 0);
    assert_eq!(ledger_recv(&mut backend, 1), 77);
    assert_eq!(ledger_recv(&mut backend, 1), -1);
    backend.network().partition(0, 1);
    assert_eq!(ledger_send(&mut backend, 1, 77), 1);
    let mut memory = vec![0u8; 64];
    put(&mut memory, 0, b"//key");
    put(&mut memory, 16, b"key");
    put(&mut memory, 32, &[0xff, 0xfe]);
    assert_eq!(ledger_fs_write(&mut backend, &memory, 0, 5, 9), 0);
    assert_eq!(ledger_fs_read(&mut backend, &memory, 16, 3), 9);
    assert_eq!(ledger_fs_read(&mut backend, &memory, 17, 2), -1);
    assert_eq!(ledger_fs_read(&mut backend, &memory, 62, 3), -2);
    assert_eq!(ledger_fs_read(&mut backend, &memory, 32, 2), -2);
    assert_eq!(ledger_fs_write(&mut backend, &memory, 62, 3, 9), 1);
    assert_eq!(ledger_fs_write(&mut backend, &memory, 32, 2, 9), 1);
}

#[test]
fn guest_log_and_clock() {
    let (mut backend, lab) = backend(2);
    let memory = b"hello".to_vec();
    let mut output = b"> ".to_vec();
    assert_eq!(ledger_log(&memory, 1, 3, &mut output), Ok(()));
    assert_eq!(output, b"> ell");
    assert_eq!(
        ledger_log(&memory, 4, 3, &mut output),
        Err(Trap::Log(SpanFault::Outside))
    );
    assert_eq!(output, b"> ell");
    assert_eq!(Trap::Log(SpanFault::Outside).message(), "ledger_log read out of bounds");
    assert_eq!(guest_clock(&mut backend, 12), 12_000);
    assert_eq!(lab.kinds(), vec![EntryKind::ClockRead]);
}

#[test]
fn guest_randomness_is_the_seeded_word_stream() {
    let (mut backend, lab) = backend(2);
    let seed = [5u8; 32];
    let mut rng = rand_chacha::ChaCha20Rng::from_seed(seed);
    let mut random = WasiRandom { seed, drawn: 0 };
    let mut memory = vec![0u8; 64];
    assert_eq!(random_get(&mut backend, &mut memory, &mut random, 8, 21), Ok(0));
    assert_eq!(random_get(&mut backend, &mut memory, &mut random, 29, 11), Ok(0));
    let expected: Vec<u8> = (0..32).map(|_| rng.next_u32() as u8).collect();
    assert_eq!(&memory[8..40], expected.as_slice());
    assert_eq!(
        random_get(&mut backend, &mut memory, &mut random, 60, 5),
        Err(Trap::Random(SpanFault::Outside))
    );
    assert_eq!(random.drawn, 32, "a failed request leaves the generator alone");
    assert_eq!(lab.count(EntryKind::RngDraw), 3, "every request is journaled");
}

// ---------------------------------------------------------------------------
// Exploration.
// ---------------------------------------------------------------------------

#[derive(Default)]
struct LabBench {
    opened: Vec<Lab>,
    left: usize,
    guarded: bool,
    broken: bool,
}

impl Bench for LabBench {
    type World = Lab;

    fn visits(&self) -> Visits {
        unreachable!("only contracts speak of the visits")
    }

    fn open(&mut self) -> (Lab, Protection) {
        let lab = Lab::default();
        self.opened.push(lab.clone());
        let mode =
            if self.guarded { ProtectionMode::Required } else { ProtectionMode::BestEffort };
        (lab, protection(mode))
    }

    fn leave(&mut self, _world: Lab) {
        self.left += 1;
    }

    fn inspect(&mut self, world: Lab) -> Observed {
        let root_hash = world.root_hash();
        let state = world.0.borrow();
        Observed {
            root_hash,
            trace: state
                .trace
                .iter()
                .map(|(step, ready, chosen, len)| StepTrace {
                    step: *step,
                    ready: ready.clone(),
                    chosen: if self.broken { ready.len() } else { *chosen },
                    journal_len: *len,
                })
                .collect(),
            entries: state
                .entries
                .iter()
                .map(|e| {
                    let counts = e.clock.iter().map(|(a, n)| (ActorId(*a), *n)).collect();
                    (e.actor, VectorClock { counts })
                })
                .collect(),
        }
    }
}

fn explore(max_runs: usize) -> (DporReport, LabBench) {
    let (report, bench) = explore_with(max_runs, LabBench::default());
    (report.expect("exploration"), bench)
}

fn explore_with(
    max_runs: usize,
    bench: LabBench,
) -> (Result<DporReport, RuntimeError>, LabBench) {
    let cfg = DporConfig { seed: EntryHash([4; 32]), max_steps: 64, max_runs };
    let programs = vec![
        vec![Instruction::Send { to: 2, payload: 1 }, Instruction::Done],
        vec![Instruction::Send { to: 2, payload: 2 }, Instruction::Done],
        vec![Instruction::Receive, Instruction::Receive, Instruction::Outcome, Instruction::Done],
    ];
    let mut bench = bench;
    let report = run_dpor(programs, &cfg, LIMITS, &mut bench);
    (report, bench)
}

#[test]
fn exploration_forces_each_alternative_once() {
    let (report, bench) = explore(100);
    assert_eq!(report.runs.len(), report.explored_flips + 1);
    assert_eq!(report.explored_flip_keys.len(), report.explored_flips);
    assert_eq!(bench.opened.len(), report.runs.len());
    assert!(report.explored_flips > 0, "concurrent senders leave alternatives");
    let mut keys = report.explored_flip_keys.clone();
    keys.sort();
    keys.dedup();
    assert_eq!(keys.len(), report.explored_flips, "no flip is explored twice");
    assert_eq!(report.runs[0].forced_prefix_len, 0);
    let base = &report.runs[0].decisions;
    for (run, key) in report.runs.iter().skip(1).zip(&report.explored_flip_keys) {
        assert_eq!(run.forced_prefix_len, key.0 + 1);
        assert_eq!(run.decisions[..key.0], base[..key.0]);
        assert_ne!(run.decisions[key.0], base[key.0]);
    }
    assert!(report.distinct_roots > 1 && report.distinct_roots <= report.runs.len());
}

#[test]
fn exploration_keeps_to_its_budget_and_repeats() {
    for max_runs in [0usize, 1, 2, 3] {
        let (report, _) = explore(max_runs);
        assert_eq!(report.runs.len(), max_runs.max(1));
    }
    assert_eq!(explore(5).0, explore(5).0, "same seed yields an identical report");
}

#[test]
fn exploration_ends_with_the_first_error() {
    let (report, bench) =
        explore_with(100, LabBench { guarded: true, ..LabBench::default() });
    assert!(matches!(report, Err(RuntimeError::Belt(_))), "got {report:?}");
    assert_eq!(bench.opened.len(), 1, "a refused base run explores nothing");
    assert_eq!(bench.left, 1, "the world of a failed run comes back unseen");
    let (report, bench) = explore_with(100, LabBench { broken: true, ..LabBench::default() });
    assert!(matches!(report, Err(RuntimeError::BrokenTrace { position: 0 })), "got {report:?}");
    assert_eq!(bench.opened.len(), 1);
    assert_eq!(bench.left, 0);
}

#[test]
fn reports_are_assembled_from_runs_and_flips() {
    let run = |byte: u8, forced_prefix_len: usize| DporRun {
        root_hash: EntryHash([byte; 32]),
        decisions: vec![0],
        forced_prefix_len,
    };
    let flips = vec![Flip { step: 0, alt: 2, position: 1 }, Flip { step: 3, alt: 1, position: 0 }];
    let report = assemble_report(vec![run(1, 0), run(2, 1), run(1, 4)], &flips);
    assert_eq!(report.distinct_roots, 2);
    assert_eq!(report.explored_flips, 2);
    assert_eq!(report.explored_flip_keys, vec![(0, 2), (3, 1)]);
    let seen = Observed {
        root_hash: EntryHash([1; 32]),
        trace: vec![StepTrace { step: 0, ready: vec![0, 1, 2], chosen: 0, journal_len: 0 }],
        entries: Vec::new(),
    };
    let planned = plan_exploration(&vec![0], &seen, 2).expect("a plan");
    assert_eq!(planned, vec![Flip { step: 0, alt: 1, position: 1 }]);
    assert!(plan_exploration(&vec![0], &seen, 1).expect("a plan").is_empty());
}

#[test]
fn vector_clocks_order_strictly() {
    let clock = |counts: &[(u32, u64)]| VectorClock {
        counts: counts.iter().map(|(a, n)| (ActorId(*a), *n)).collect(),
    };
    let low = clock(&[(0, 1)]);
    let high = clock(&[(0, 1), (1, 2)]);
    let side = clock(&[(0, 2)]);
    assert!(low.happens_before(&high));
    assert!(!high.happens_before(&low));
    assert!(!low.happens_before(&low));
    assert!(!high.happens_before(&side) && !side.happens_before(&high));
    assert_eq!(high.count(ActorId(1)), 2);
    assert_eq!(high.count(ActorId(7)), 0);
}
