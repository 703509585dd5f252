//! Simulations: executors that run instruction programs.

use crate::config::{JournalingMode, Policy, RunConfig, RunModel, SimFault};
use crate::executor::{lemma_told, Boundary, ExecutorShared};
use crate::host::{extends, follows, Ask, Host, MonitorIssue, ReplayViolation, Reply};
use crate::ids::{ActorId, EntryHash};
use crate::model::{fresh_task, same_tasks, told, TaskEntry, World};
use crate::net::{LinkConfig, NetState, SimNet};
use crate::origin::OriginLog;
use crate::program::{program_polled, ProgramFuture};
use crate::runtime::{HaltReason, Instruction, RunOutcome};
use crate::schedule::{
    coverage_of, in_range, issues_found, poll_noted, prefix_shown, registers_of, report_of,
    roots_journaled, run_ended, step_begun, step_ended, turn_taken, RunReport, RunResult,
    RuntimeError, Turn,
};
use crate::sentinel::{admitted, BeltStatus, Protection};
use vstd::prelude::*;

verus! {

broadcast use {crate::host::lemma_extends, crate::host::lemma_follows};

/// Hard limits of the journal format.
#[derive(Debug, Clone, Copy, PartialEq, Eq, Structural)]
pub struct Limits {
    /// Longest message in bytes.
    pub max_message_bytes: u64,
    /// Largest file extent in bytes.
    pub max_file_extent: u64,
}

/// How the scheduler of a run decides.
#[derive(Debug)]
pub struct Plan {
    /// Recorded decisions to follow.
    pub replay: Vec<usize>,
    /// Policy once the recorded decisions ran out.
    pub fallback: Policy,
    /// Whether a recorded decision that does not fit rejects the run.
    pub strict: bool,
}

/// Links of a configuration; a later entry of a link replaces an earlier one.
pub open spec fn linked(links: Seq<(usize, usize, LinkConfig)>) -> Map<(usize, usize), LinkConfig>
    decreases links.len(),
{
    if links.len() == 0 {
        Map::empty()
    } else {
        let (from, to, cfg) = links.last();
        linked(links.drop_last()).insert((from, to), cfg)
    }
}

/// Links that the fault schedule partitions from the start.
pub open spec fn cut(schedule: Seq<SimFault>) -> Set<(usize, usize)>
    decreases schedule.len(),
{
    if schedule.len() == 0 {
        Set::empty()
    } else {
        match schedule.last() {
            SimFault::Partition { src, dst } => cut(schedule.drop_last()).insert(
                (src.0 as usize, dst.0 as usize),
            ),
            _ => cut(schedule.drop_last()),
        }
    }
}

/// The state in which a run begins, in a world with the given past.
pub open spec fn first_world(
    config: RunModel,
    limits: Limits,
    roots: nat,
    past: Seq<(Ask, Reply)>,
) -> World {
    World {
        log: past,
        net: NetState {
            queue: Seq::empty(),
            partitions: cut(config.fault_schedule),
            window: 0,
            links: linked(config.links),
        },
        dns: config.dns,
        tasks: Seq::new(roots, |i: int| fresh_task()),
        ready: Seq::new(roots, |i: int| i as usize),
        dropped_events: config.dropped_events,
        swarm: config.swarm,
        net_offset: 0,
        fs_offset: 0,
        reorder_draw: config.reorder_draw,
        message_limit: limits.max_message_bytes,
        send_seq: Seq::empty(),
        coverage: Seq::empty(),
        fault_classes_used: Seq::empty(),
        applied_faults: Seq::empty(),
        origins: Seq::empty(),
        fault_schedule: config.fault_schedule,
        fs_journaling: config.fs_journaling,
        journal_error: None,
        streams: Seq::empty(),
    }
}

/// A configuration that follows recorded decisions.
pub open spec fn replaying(config: RunModel) -> RunModel {
    RunModel { policy: Policy::Replay, ..config }
}

/// Create scheduler and storage of a run.
pub open spec fn opened(
    config: RunModel,
    limits: Limits,
    replay: Seq<usize>,
    fallback: Policy,
    strict: bool,
    roots: nat,
    past: Seq<(Ask, Reply)>,
    script: Seq<Reply>,
) -> World {
    let w1 = told(
        first_world(config, limits, roots, past),
        Ask::OpenScheduler {
            seed: config.seed,
            policy: config.policy,
            replay,
            fallback,
            strict,
        },
        script,
    ).1;
    told(
        w1,
        Ask::FsOpen {
            extent: match config.max_file_extent {
                Some(extent) => extent,
                None => limits.max_file_extent,
            },
            resident: config.max_resident_bytes,
            mode: config.fs_journaling,
        },
        script,
    ).1
}

/// Journal the roots and show them to the monitor.
pub open spec fn begun(w: World, script: Seq<Reply>) -> (
    Result<Option<HaltReason>, RuntimeError>,
    World,
) {
    let (answer, w1) = roots_journaled(w, w.tasks.len(), script);
    match answer {
        Err(e) => (Err(e), w1),
        Ok(_) => {
            let (halt, w2) = prefix_shown(w1, script);
            (Ok(halt), w2)
        },
    }
}

/// Deterministic single-threaded executor.
pub struct Executor<H: Host> {
    shared: ExecutorShared<H>,
    max_steps: usize,
    monitor: bool,
    steps: usize,
}

impl<H: Host> Executor<H> {
    /// State shared by the tasks.
    pub closed spec fn world(self) -> World {
        self.shared@
    }

    /// Instruction budget.
    pub closed spec fn budget(self) -> usize {
        self.max_steps
    }

    /// Whether the journal is audited.
    pub closed spec fn audits(self) -> bool {
        self.monitor
    }

    /// Instructions executed so far.
    pub closed spec fn executed_steps(self) -> usize {
        self.steps
    }

    /// Create an executor for a number of root tasks; task ids equal their
    /// indices.
    pub fn new(config: RunConfig, limits: Limits, plan: Plan, roots: usize, host: H) -> (executor:
        Executor<H>)
        ensures
            executor.budget() == config@.max_steps,
            executor.audits() == config@.monitor,
            executor.executed_steps() == 0,
            executor.world().tasks.len() == roots,
            in_range(executor.world()),
            forall|script: Seq<Reply>|
                follows(script, executor.world().log) ==> #[trigger] opened(
                    config@,
                    limits,
                    plan.replay@,
                    plan.fallback,
                    plan.strict,
                    roots as nat,
                    host.asked(),
                    script,
                ) == executor.world(),
    {
        let ghost past = host.asked();
        let mut net: SimNet = SimNet::new();
        Self::configure_links(&mut net, config.links());
        Self::cut_links(&mut net, config.fault_schedule());
        let mut tasks: Vec<TaskEntry> = Vec::new();
        let mut ready: Vec<usize> = Vec::new();
        let mut i: usize = 0;
        while i < roots
            invariant
                i <= roots,
                tasks@ == Seq::new(i as nat, |k: int| fresh_task()),
                ready@ == Seq::new(i as nat, |k: int| k as usize),
            decreases roots - i,
        {
            tasks.push(
                TaskEntry { blocked_on: None, done: false, register: 0, timer_fired: false },
            );
            ready.push(i);
            i = i + 1;
            assert(tasks@ =~= Seq::new(i as nat, |k: int| fresh_task()));
            assert(ready@ =~= Seq::new(i as nat, |k: int| k as usize));
        }
        let ghost model = config@;
        let max_steps: usize = config.max_steps();
        let monitor: bool = config.monitor();
        let seed: EntryHash = config.seed();
        let policy: Policy = config.policy();
        let mode: Option<JournalingMode> = config.fs_journaling();
        let resident: Option<u64> = config.max_resident_bytes();
        let extent: u64 = match config.max_file_extent() {
            Some(extent) => extent,
            None => limits.max_file_extent,
        };
        let mut shared = ExecutorShared {
            host,
            net,
            dns: config.dns().clone(),
            tasks,
            ready,
            dropped_events: copy_hashes(config.dropped_events()),
            swarm: *config.swarm(),
            net_offset: 0,
            fs_offset: 0,
            reorder_draw: config.reorder_draw(),
            message_limit: limits.max_message_bytes,
            send_seq: Vec::new(),
            coverage: Vec::new(),
            fault_classes_used: Vec::new(),
            applied_faults: Vec::new(),
            origins: OriginLog::default(),
            fault_schedule: copy_faults(config.fault_schedule()),
            fs_journaling: mode,
            journal_error: None,
            streams: Vec::new(),
        };
        assert(shared@ =~= first_world(model, limits, roots as nat, past));
        let ghost start = shared@;
        shared.host.open_scheduler(seed, policy, &plan.replay, plan.fallback, plan.strict);
        proof {
            lemma_told(
                start,
                Ask::OpenScheduler {
                    seed,
                    policy,
                    replay: plan.replay@,
                    fallback: plan.fallback,
                    strict: plan.strict,
                },
                Reply::Nothing,
                shared@,
            );
        }
        let ghost mid = shared@;
        shared.host.fs_open(extent, resident, mode);
        proof {
            lemma_told(mid, Ask::FsOpen { extent, resident, mode }, Reply::Nothing, shared@);
        }
        Executor { shared, max_steps, monitor, steps: 0 }
    }

    /// Configure the links of a network.
    fn configure_links(net: &mut SimNet, links: &[(usize, usize, LinkConfig)])
        requires
            old(net)@.links == Map::<(usize, usize), LinkConfig>::empty(),
        ensures
            final(net)@ == (NetState { links: linked(links@), ..old(net)@ }),
    {
        let mut i: usize = 0;
        assert(links@.take(0) =~= Seq::<(usize, usize, LinkConfig)>::empty());
        while i < links.len()
            invariant
                i <= links@.len(),
                net@ == (NetState { links: linked(links@.take(i as int)), ..old(net)@ }),
            decreases links@.len() - i,
        {
            let (from, to, cfg): (usize, usize, LinkConfig) = links[i];
            assert(links@.take(i + 1).drop_last() =~= links@.take(i as int));
            assert(links@.take(i + 1).last() == (from, to, cfg));
            net.set_link(from, to, cfg);
            i = i + 1;
        }
        assert(links@.take(i as int) =~= links@);
    }

    /// Partition the links that the fault schedule cuts from the start.
    fn cut_links(net: &mut SimNet, schedule: &[SimFault])
        requires
            old(net)@.partitions == Set::<(usize, usize)>::empty(),
        ensures
            final(net)@ == (NetState { partitions: cut(schedule@), ..old(net)@ }),
    {
        let mut i: usize = 0;
        assert(schedule@.take(0) =~= Seq::<SimFault>::empty());
        while i < schedule.len()
            invariant
                i <= schedule@.len(),
                net@ == (NetState { partitions: cut(schedule@.take(i as int)), ..old(net)@ }),
            decreases schedule@.len() - i,
        {
            assert(schedule@.take(i + 1).drop_last() =~= schedule@.take(i as int));
            assert(schedule@.take(i + 1).last() == schedule@[i as int]);
            if let SimFault::Partition { src, dst } = schedule[i] {
                net.partition(src.0 as usize, dst.0 as usize);
            }
            i = i + 1;
        }
        assert(schedule@.take(i as int) =~= schedule@);
    }

    /// State shared by the tasks.
    pub fn shared(&mut self) -> (shared: &mut ExecutorShared<H>)
        ensures
            (*shared)@ == old(self).world(),
            (*final(shared))@ == final(self).world(),
            final(self).budget() == old(self).budget(),
            final(self).audits() == old(self).audits(),
            final(self).executed_steps() == old(self).executed_steps(),
    {
        &mut self.shared
    }
}

/// A copy of hashes.
fn copy_hashes(hashes: &[EntryHash]) -> (copy: Vec<EntryHash>)
    ensures
        copy@ == hashes@,
{
    let mut copy: Vec<EntryHash> = Vec::new();
    let mut i: usize = 0;
    while i < hashes.len()
        invariant
            i <= hashes@.len(),
            copy@ == hashes@.take(i as int),
        decreases hashes@.len() - i,
    {
        copy.push(hashes[i]);
        i = i + 1;
        assert(copy@ =~= hashes@.take(i as int));
    }
    assert(hashes@.take(i as int) =~= hashes@);
    copy
}

/// A copy of faults.
fn copy_faults(faults: &[SimFault]) -> (copy: Vec<SimFault>)
    ensures
        copy@ == faults@,
{
    let mut copy: Vec<SimFault> = Vec::new();
    let mut i: usize = 0;
    while i < faults.len()
        invariant
            i <= faults@.len(),
            copy@ == faults@.take(i as int),
        decreases faults@.len() - i,
    {
        copy.push(faults[i]);
        i = i + 1;
        assert(copy@ =~= faults@.take(i as int));
    }
    assert(faults@.take(i as int) =~= faults@);
    copy
}

/// The entry counts with their actors.
fn coverage_list(counts: &Vec<(u32, u64)>) -> (entries: Vec<(ActorId, u64)>)
    ensures
        entries@ == coverage_of(counts@),
{
    let mut entries: Vec<(ActorId, u64)> = Vec::new();
    let mut i: usize = 0;
    while i < counts.len()
        invariant
            i <= counts@.len(),
            entries@ == coverage_of(counts@).take(i as int),
        decreases counts@.len() - i,
    {
        entries.push((ActorId(counts[i].0), counts[i].1));
        i = i + 1;
        assert(entries@ =~= coverage_of(counts@).take(i as int));
    }
    assert(coverage_of(counts@).take(i as int) =~= coverage_of(counts@));
    entries
}

/// Registers of the tasks.
fn register_list(tasks: &Vec<TaskEntry>) -> (registers: Vec<u64>)
    ensures
        registers@ == registers_of(tasks@),
{
    let mut registers: Vec<u64> = Vec::new();
    let mut i: usize = 0;
    while i < tasks.len()
        invariant
            i <= tasks@.len(),
            registers@ == registers_of(tasks@).take(i as int),
        decreases tasks@.len() - i,
    {
        registers.push(tasks[i].register);
        i = i + 1;
        assert(registers@ =~= registers_of(tasks@).take(i as int));
    }
    assert(registers_of(tasks@).take(i as int) =~= registers_of(tasks@));
    registers
}

impl<H: Host> Executor<H> {
    /// The protection that the run starts under: nothing has been asked yet when
    /// it is refused or when the budget is `0`.
    pub fn start(&self, protection: Protection) -> (r: Result<BeltStatus, RuntimeError>)
        ensures
            r == started(protection, self.budget()),
    {
        match protection.enforce() {
            Err(status) => Err(RuntimeError::Belt(status)),
            Ok(status) => if self.max_steps == 0 {
                Err(RuntimeError::StepLimit { limit: self.max_steps })
            } else {
                Ok(status)
            },
        }
    }

    /// Journal the root tasks and show them to the monitor.
    pub fn begin(&mut self) -> (answer: Result<Option<HaltReason>, RuntimeError>)
        ensures
            final(self).budget() == old(self).budget(),
            final(self).audits() == old(self).audits(),
            final(self).executed_steps() == old(self).executed_steps(),
            extends(final(self).world().log, old(self).world().log),
            same_tasks(old(self).world(), final(self).world()),
            forall|script: Seq<Reply>|
                follows(script, final(self).world().log) ==> #[trigger] begun(
                    old(self).world(),
                    script,
                ) == (answer, final(self).world()),
    {
        if let Err(e) = self.shared.journal_spawns() {
            return Err(e);
        }
        Ok(self.shared.show_prefix())
    }

    /// Instructions executed so far.
    pub fn steps(&self) -> (steps: usize)
        ensures
            steps == self.executed_steps(),
    {
        self.steps
    }

    /// Whether the instruction budget is used up.
    pub fn is_exhausted(&self) -> (yes: bool)
        ensures
            yes == (self.executed_steps() >= self.budget()),
    {
        self.steps >= self.max_steps
    }

    /// Count the poll of a task and keep its books.
    pub fn note_poll(&mut self, task: usize, ended: bool)
        requires
            old(self).executed_steps() < old(self).budget(),
            task < old(self).world().tasks.len(),
            in_range(old(self).world()),
        ensures
            final(self).budget() == old(self).budget(),
            final(self).audits() == old(self).audits(),
            final(self).executed_steps() == old(self).executed_steps() + 1,
            final(self).world() == poll_noted(old(self).world(), task, ended),
            in_range(final(self).world()),
    {
        self.steps = self.steps + 1;
        self.shared.note_poll(task, ended);
    }

    /// Audit the journal and hold it against the entry counts.
    fn find_issues(&mut self) -> (issues: Vec<MonitorIssue>)
        ensures
            final(self).budget() == old(self).budget(),
            final(self).audits() == old(self).audits(),
            final(self).executed_steps() == old(self).executed_steps(),
            extends(final(self).world().log, old(self).world().log),
            forall|script: Seq<Reply>|
                follows(script, final(self).world().log) ==> #[trigger] issues_found(
                    old(self).world(),
                    old(self).audits(),
                    script,
                ) == (issues@, final(self).world()),
    {
        if !self.monitor {
            return Vec::new();
        }
        let mut issues: Vec<MonitorIssue> = self.shared.host.audit();
        proof {
            lemma_told(
                old(self).world(),
                Ask::Audit,
                Reply::Issues(issues@),
                self.shared@,
            );
        }
        let entries: Vec<(ActorId, u64)> = coverage_list(&self.shared.coverage);
        let ghost before = self.shared@;
        let mut more: Vec<MonitorIssue> = self.shared.host.check_coverage(&entries);
        proof {
            lemma_told(
                before,
                Ask::CheckCoverage { entries: entries@ },
                Reply::Issues(more@),
                self.shared@,
            );
        }
        issues.append(&mut more);
        issues
    }

    /// End the run: leftover decisions of a strict replay and a recorded append
    /// failure reject it.
    ///
    /// A recorded append failure means that the journal is incomplete, so no
    /// caller can build findings on it.
    pub fn finish(&mut self, outcome: RunOutcome, protection: BeltStatus) -> (r: Result<
        RunResult,
        RuntimeError,
    >)
        ensures
            final(self).budget() == old(self).budget(),
            extends(final(self).world().log, old(self).world().log),
            forall|script: Seq<Reply>|
                follows(script, final(self).world().log) ==> #[trigger] run_ended(
                    old(self).world(),
                    outcome,
                    old(self).executed_steps(),
                    old(self).audits(),
                    protection,
                    script,
                ) == (report_of(r), final(self).world()),
    {
        let decisions: Vec<usize> = self.shared.host.decisions();
        proof {
            lemma_told(
                old(self).world(),
                Ask::Decisions,
                Reply::Positions(decisions@),
                self.shared@,
            );
        }
        let consumed: usize = decisions.len();
        let ghost before = self.shared@;
        let left: Option<ReplayViolation> = self.shared.host.check_trailing(consumed);
        proof {
            lemma_told(
                before,
                Ask::CheckTrailing { consumed },
                Reply::Trailing(left),
                self.shared@,
            );
        }
        if let Some(violation) = left {
            return Err(RuntimeError::StrictReplay(violation));
        }
        if let Some(error) = self.shared.journal_error {
            return Err(RuntimeError::Journal(error));
        }
        let monitor_issues: Vec<MonitorIssue> = self.find_issues();
        let budget_bound: bool = match &outcome {
            RunOutcome::BudgetExhausted => true,
            _ => false,
        };
        let outcome: RunOutcome = if budget_bound && self.shared.all_tasks_done() {
            RunOutcome::Completed
        } else {
            outcome
        };
        let result = RunResult {
            decisions,
            registers: register_list(&self.shared.tasks),
            steps: self.steps,
            outcome,
            monitor_issues,
            applied_faults: copy_hashes(self.shared.applied_faults.as_slice()),
            origins: self.shared.origins.snapshot(),
            journal_error: None,
            protection,
        };
        Ok(result)
    }

    /// The world around the executor.
    pub closed spec fn held(self) -> H {
        self.shared.host
    }

    /// Give the world back.
    pub fn into_host(self) -> (host: H)
        ensures
            host == self.held(),
            host.asked() == self.world().log,
    {
        self.shared.host
    }
}

/// A run in progress: the shared state, the executed steps and the place in
/// each program.
#[verifier::ext_equal]
pub struct RunState {
    pub world: World,
    pub steps: nat,
    pub places: Seq<nat>,
}

/// A run that has executed nothing yet.
pub open spec fn first_state(world: World, programs: Seq<Seq<Instruction>>) -> RunState {
    RunState { world, steps: 0, places: Seq::new(programs.len(), |i: int| 0nat) }
}

/// Poll a chosen task; one that is not runnable is passed over.
pub open spec fn polled(
    state: RunState,
    programs: Seq<Seq<Instruction>>,
    task: usize,
    runnable: bool,
    script: Seq<Reply>,
) -> RunState {
    if runnable {
        let (ended, place, w) = program_polled(
            state.world,
            task,
            programs[task as int],
            state.places[task as int],
            script,
        );
        RunState {
            world: poll_noted(w, task, ended),
            steps: state.steps + 1,
            places: state.places.update(task as int, place),
        }
    } else {
        state
    }
}

/// One round of a run: its outcome when the run is over.
pub open spec fn round_done(
    state: RunState,
    programs: Seq<Seq<Instruction>>,
    script: Seq<Reply>,
) -> (Result<Option<RunOutcome>, RuntimeError>, RunState) {
    let (start, w1) = step_begun(state.world, script);
    let (turn, w2) = turn_taken(w1, state.steps as usize, script);
    let after = RunState { world: w2, ..state };
    match turn {
        Err(e) => (Err(e), after),
        Ok(Turn::Stop(outcome)) => (Ok(Some(outcome)), after),
        Ok(Turn::Poll { task, runnable }) => {
            let next = polled(after, programs, task, runnable, script);
            let (halt, w3) = step_ended(next.world, start, script);
            (
                Ok(
                    match halt {
                        Some(reason) => Some(RunOutcome::MonitorHalt(reason)),
                        None => None,
                    },
                ),
                RunState { world: w3, ..next },
            )
        },
    }
}

/// The rounds of a run until it is over or the budget is reached.
pub open spec fn rounds_done(
    state: RunState,
    programs: Seq<Seq<Instruction>>,
    budget: usize,
    rounds: nat,
    script: Seq<Reply>,
) -> (Result<RunOutcome, RuntimeError>, RunState)
    decreases rounds,
{
    if state.steps >= budget {
        (Ok(RunOutcome::BudgetExhausted), state)
    } else if rounds == 0 {
        (Err(RuntimeError::StepLimit { limit: budget }), state)
    } else {
        let (answer, next) = round_done(state, programs, script);
        match answer {
            Err(e) => (Err(e), next),
            Ok(Some(outcome)) => (Ok(outcome), next),
            Ok(None) => rounds_done(next, programs, budget, (rounds - 1) as nat, script),
        }
    }
}

/// A run starts under its protection unless that is refused. A budget that
/// admits no instruction then ends the run before it does anything.
pub open spec fn started(protection: Protection, budget: usize) -> Result<
    BeltStatus,
    RuntimeError,
> {
    match admitted(protection) {
        Err(status) => Err(RuntimeError::Belt(status)),
        Ok(status) => if budget == 0 {
            Err(RuntimeError::StepLimit { limit: budget })
        } else {
            Ok(status)
        },
    }
}

/// A run from its first entry to its outcome, with the executed steps.
pub open spec fn played(
    w: World,
    programs: Seq<Seq<Instruction>>,
    budget: usize,
    script: Seq<Reply>,
) -> (Result<(RunOutcome, usize), RuntimeError>, World) {
    let (first, w1) = begun(w, script);
    match first {
        Err(e) => (Err(e), w1),
        Ok(Some(reason)) => (Ok((RunOutcome::MonitorHalt(reason), 0)), w1),
        Ok(None) => {
            let (answer, end) = rounds_done(
                first_state(w1, programs),
                programs,
                budget,
                u64::MAX as nat,
                script,
            );
            match answer {
                Err(e) => (Err(e), end.world),
                Ok(outcome) => (Ok((outcome, end.steps as usize)), end.world),
            }
        },
    }
}

/// A whole run.
pub open spec fn ran(
    w: World,
    programs: Seq<Seq<Instruction>>,
    budget: usize,
    audits: bool,
    protection: Protection,
    script: Seq<Reply>,
) -> (Result<RunReport, RuntimeError>, World) {
    match started(protection, budget) {
        Err(e) => (Err(e), w),
        Ok(status) => {
            let (answer, w1) = played(w, programs, budget, script);
            match answer {
                Err(e) => (Err(e), w1),
                Ok((outcome, steps)) => run_ended(w1, outcome, steps, audits, status, script),
            }
        },
    }
}

/// Deterministic cooperative simulator of instruction programs.
pub struct Simulation<H: Host> {
    executor: Executor<H>,
    programs: Vec<ProgramFuture>,
}

impl<H: Host> Simulation<H> {
    /// State shared by the tasks.
    pub closed spec fn world(self) -> World {
        self.executor.world()
    }

    /// The programs, by task.
    pub closed spec fn programs(self) -> Seq<Seq<Instruction>> {
        self.programs@.map_values(|p: ProgramFuture| p.program())
    }

    /// The place in each program.
    pub closed spec fn places(self) -> Seq<nat> {
        self.programs@.map_values(|p: ProgramFuture| p.at())
    }

    /// Instruction budget.
    pub closed spec fn budget(self) -> usize {
        self.executor.budget()
    }

    /// Whether the journal is audited.
    pub closed spec fn audits(self) -> bool {
        self.executor.audits()
    }

    /// Instructions executed so far.
    pub closed spec fn executed_steps(self) -> usize {
        self.executor.executed_steps()
    }

    /// One program per task, and the ready list names tasks.
    pub closed spec fn wf(self) -> bool {
        &&& self.programs@.len() == self.executor.world().tasks.len()
        &&& forall|i: int|
            0 <= i < self.programs@.len() ==> (#[trigger] self.programs@[i]).task() == i
        &&& in_range(self.executor.world())
    }

    /// Nothing has run yet.
    pub open spec fn fresh(self) -> bool {
        &&& self.wf()
        &&& self.executed_steps() == 0
        &&& self.places() == Seq::new(self.programs().len(), |i: int| 0nat)
    }

    /// The run so far.
    pub open spec fn state(self) -> RunState {
        RunState {
            world: self.world(),
            steps: self.executed_steps() as nat,
            places: self.places(),
        }
    }
}

/// The programs as sequences.
pub open spec fn program_views(programs: Seq<Vec<Instruction>>) -> Seq<Seq<Instruction>> {
    programs.map_values(|p: Vec<Instruction>| p@)
}

/// Start a program for each task.
fn install_programs(programs: Vec<Vec<Instruction>>) -> (futures: Vec<ProgramFuture>)
    ensures
        futures@.len() == programs@.len(),
        forall|i: int|
            0 <= i < futures@.len() ==> (#[trigger] futures@[i]).task() == i && futures@[i].at()
                == 0 && futures@[i].program() == programs@[i]@,
{
    let mut futures: Vec<ProgramFuture> = Vec::new();
    let ghost all = programs@;
    let mut rest: Vec<Vec<Instruction>> = programs;
    let mut i: usize = 0;
    let count: usize = rest.len();
    while i < count
        invariant
            i <= count,
            count == all.len(),
            rest@ == all.skip(i as int),
            futures@.len() == i,
            forall|k: int|
                0 <= k < i ==> (#[trigger] futures@[k]).task() == k && futures@[k].at() == 0
                    && futures@[k].program() == all[k]@,
        decreases count - i,
    {
        let program: Vec<Instruction> = rest.remove(0);
        assert(program@ == all[i as int]@);
        assert(rest@ =~= all.skip(i + 1));
        futures.push(ProgramFuture::new(Boundary::for_task(i), program));
        i = i + 1;
    }
    futures
}

impl<H: Host> Simulation<H> {
    /// Create a simulation whose scheduler follows a plan.
    pub fn with_plan(
        config: RunConfig,
        limits: Limits,
        programs: Vec<Vec<Instruction>>,
        plan: Plan,
        host: H,
    ) -> (simulation: Simulation<H>)
        ensures
            simulation.fresh(),
            simulation.programs() == program_views(programs@),
            simulation.budget() == config@.max_steps,
            simulation.audits() == config@.monitor,
            forall|script: Seq<Reply>|
                follows(script, simulation.world().log) ==> #[trigger] opened(
                    config@,
                    limits,
                    plan.replay@,
                    plan.fallback,
                    plan.strict,
                    programs@.len(),
                    host.asked(),
                    script,
                ) == simulation.world(),
    {
        let ghost views = program_views(programs@);
        let executor: Executor<H> = Executor::new(config, limits, plan, programs.len(), host);
        let futures: Vec<ProgramFuture> = install_programs(programs);
        let simulation = Simulation { executor, programs: futures };
        assert(simulation.programs() =~= views);
        assert(simulation.places() =~= Seq::new(simulation.programs().len(), |i: int| 0nat));
        simulation
    }

    /// Create a simulation from task programs.
    pub fn new(
        config: RunConfig,
        limits: Limits,
        programs: Vec<Vec<Instruction>>,
        host: H,
    ) -> (simulation: Simulation<H>)
        ensures
            simulation.fresh(),
            simulation.programs() == program_views(programs@),
            simulation.budget() == config@.max_steps,
            simulation.audits() == config@.monitor,
            forall|script: Seq<Reply>|
                follows(script, simulation.world().log) ==> #[trigger] opened(
                    config@,
                    limits,
                    Seq::empty(),
                    Policy::Random,
                    false,
                    programs@.len(),
                    host.asked(),
                    script,
                ) == simulation.world(),
    {
        Self::with_replay(config, limits, programs, Vec::new(), host)
    }

    /// Create a simulation that follows recorded ready-list choices.
    ///
    /// A complete `replay` never exhausts, so the fallback policy is unused.
    pub fn with_replay(
        config: RunConfig,
        limits: Limits,
        programs: Vec<Vec<Instruction>>,
        replay: Vec<usize>,
        host: H,
    ) -> (simulation: Simulation<H>)
        ensures
            simulation.fresh(),
            simulation.programs() == program_views(programs@),
            simulation.budget() == config@.max_steps,
            simulation.audits() == config@.monitor,
            forall|script: Seq<Reply>|
                follows(script, simulation.world().log) ==> #[trigger] opened(
                    config@,
                    limits,
                    replay@,
                    Policy::Random,
                    false,
                    programs@.len(),
                    host.asked(),
                    script,
                ) == simulation.world(),
    {
        Self::with_replay_and_fallback(config, limits, programs, replay, Policy::Random, host)
    }

    /// Create a simulation with an explicit replay-exhaustion fallback.
    pub fn with_replay_and_fallback(
        config: RunConfig,
        limits: Limits,
        programs: Vec<Vec<Instruction>>,
        replay: Vec<usize>,
        fallback: Policy,
        host: H,
    ) -> (simulation: Simulation<H>)
        ensures
            simulation.fresh(),
            simulation.programs() == program_views(programs@),
            simulation.budget() == config@.max_steps,
            simulation.audits() == config@.monitor,
            forall|script: Seq<Reply>|
                follows(script, simulation.world().log) ==> #[trigger] opened(
                    config@,
                    limits,
                    replay@,
                    fallback,
                    false,
                    programs@.len(),
                    host.asked(),
                    script,
                ) == simulation.world(),
    {
        let plan = Plan { replay, fallback, strict: false };
        Self::with_plan(config, limits, programs, plan, host)
    }

    /// Create a strict simulation; out-of-range, exhausted, or trailing
    /// decisions surface as [`RuntimeError::StrictReplay`]. A strict run must
    /// replay, so its policy is forced.
    pub fn with_replay_strict(
        config: RunConfig,
        limits: Limits,
        programs: Vec<Vec<Instruction>>,
        replay: Vec<usize>,
        host: H,
    ) -> (simulation: Simulation<H>)
        ensures
            simulation.fresh(),
            simulation.programs() == program_views(programs@),
            simulation.budget() == config@.max_steps,
            simulation.audits() == config@.monitor,
            forall|script: Seq<Reply>|
                follows(script, simulation.world().log) ==> #[trigger] opened(
                    replaying(config@),
                    limits,
                    replay@,
                    Policy::Random,
                    true,
                    programs@.len(),
                    host.asked(),
                    script,
                ) == simulation.world(),
    {
        let plan = Plan { replay, fallback: Policy::Random, strict: true };
        Self::with_plan(config.with_policy(Policy::Replay), limits, programs, plan, host)
    }

    /// Poll a task.
    fn poll_task(&mut self, task: usize, runnable: bool)
        requires
            old(self).wf(),
            task < old(self).world().tasks.len(),
            old(self).executed_steps() < old(self).budget(),
        ensures
            final(self).wf(),
            final(self).programs() == old(self).programs(),
            final(self).budget() == old(self).budget(),
            final(self).audits() == old(self).audits(),
            extends(final(self).world().log, old(self).world().log),
            forall|script: Seq<Reply>|
                follows(script, final(self).world().log) ==> #[trigger] polled(
                    old(self).state(),
                    old(self).programs(),
                    task,
                    runnable,
                    script,
                ) == final(self).state(),
    {
        if !runnable {
            return;
        }
        let ghost futures = self.programs@;
        let ended: bool = self.programs[task].poll(&mut self.executor.shared);
        let ghost polled_future = self.programs@[task as int];
        assert(self.programs@ =~= futures.update(task as int, polled_future));
        self.executor.note_poll(task, ended);
        proof {
            assert(self.programs() =~= old(self).programs());
            assert(self.places() =~= old(self).places().update(
                task as int,
                polled_future.at(),
            ));
        }
    }

    /// Run one round: its outcome when the run is over.
    fn round(&mut self) -> (answer: Result<Option<RunOutcome>, RuntimeError>)
        requires
            old(self).wf(),
            old(self).executed_steps() < old(self).budget(),
        ensures
            final(self).wf(),
            final(self).programs() == old(self).programs(),
            final(self).budget() == old(self).budget(),
            final(self).audits() == old(self).audits(),
            extends(final(self).world().log, old(self).world().log),
            forall|script: Seq<Reply>|
                follows(script, final(self).world().log) ==> #[trigger] round_done(
                    old(self).state(),
                    old(self).programs(),
                    script,
                ) == (answer, final(self).state()),
    {
        let start: Option<usize> = self.executor.shared.begin_step();
        let turn: Result<Turn, RuntimeError> = self.executor.shared.next_turn(self.executor.steps);
        match turn {
            Err(e) => Err(e),
            Ok(Turn::Stop(outcome)) => Ok(Some(outcome)),
            Ok(Turn::Poll { task, runnable }) => {
                self.poll_task(task, runnable);
                match self.executor.shared.end_step(start) {
                    Some(reason) => Ok(Some(RunOutcome::MonitorHalt(reason))),
                    None => Ok(None),
                }
            },
        }
    }
}

impl<H: Host> Simulation<H> {
    /// Run rounds until the run is over or the budget is reached.
    fn rounds(&mut self) -> (answer: Result<RunOutcome, RuntimeError>)
        requires
            old(self).wf(),
        ensures
            final(self).wf(),
            final(self).programs() == old(self).programs(),
            final(self).budget() == old(self).budget(),
            final(self).audits() == old(self).audits(),
            extends(final(self).world().log, old(self).world().log),
            forall|script: Seq<Reply>|
                follows(script, final(self).world().log) ==> #[trigger] rounds_done(
                    old(self).state(),
                    old(self).programs(),
                    old(self).budget(),
                    u64::MAX as nat,
                    script,
                ) == (answer, final(self).state()),
    {
        let ghost start = self.state();
        let ghost programs = self.programs();
        let ghost budget = self.budget();
        let mut left: u64 = u64::MAX;
        while left > 0
            invariant
                self.wf(),
                self.programs() == programs,
                self.budget() == budget,
                self.audits() == old(self).audits(),
                start == old(self).state(),
                programs == old(self).programs(),
                budget == old(self).budget(),
                extends(self.world().log, old(self).world().log),
                forall|script: Seq<Reply>|
                    follows(script, self.world().log) ==> #[trigger] rounds_done(
                        start,
                        programs,
                        budget,
                        u64::MAX as nat,
                        script,
                    ) == rounds_done(self.state(), programs, budget, left as nat, script),
            decreases left,
        {
            if self.executor.steps >= self.executor.max_steps {
                return Ok(RunOutcome::BudgetExhausted);
            }
            let ghost before = self.state();
            let answer: Result<Option<RunOutcome>, RuntimeError> = self.round();
            proof {
                assert forall|script: Seq<Reply>|
                    follows(script, self.world().log) implies #[trigger] rounds_done(
                    start,
                    programs,
                    budget,
                    u64::MAX as nat,
                    script,
                ) == (match answer {
                    Err(e) => (Err(e), self.state()),
                    Ok(Some(outcome)) => (Ok(outcome), self.state()),
                    Ok(None) => rounds_done(
                        self.state(),
                        programs,
                        budget,
                        (left - 1) as nat,
                        script,
                    ),
                }) by {
                    assert(rounds_done(start, programs, budget, u64::MAX as nat, script)
                        == rounds_done(before, programs, budget, left as nat, script));
                    assert(round_done(before, programs, script) == (answer, self.state()));
                }
            }
            match answer {
                Err(e) => return Err(e),
                Ok(Some(outcome)) => return Ok(outcome),
                Ok(None) => {},
            }
            left = left - 1;
        }
        if self.executor.steps >= self.executor.max_steps {
            return Ok(RunOutcome::BudgetExhausted);
        }
        Err(RuntimeError::StepLimit { limit: self.executor.max_steps })
    }

    /// Run until all tasks finish, the budget is reached, or a monitor halts.
    pub fn run(&mut self, protection: Protection) -> (r: Result<RunResult, RuntimeError>)
        requires
            old(self).fresh(),
        ensures
            extends(final(self).world().log, old(self).world().log),
            forall|script: Seq<Reply>|
                follows(script, final(self).world().log) ==> #[trigger] ran(
                    old(self).world(),
                    old(self).programs(),
                    old(self).budget(),
                    old(self).audits(),
                    protection,
                    script,
                ) == (report_of(r), final(self).world()),
    {
        let status: BeltStatus = match self.executor.start(protection) {
            Ok(status) => status,
            Err(e) => return Err(e),
        };
        let first: Result<Option<HaltReason>, RuntimeError> = self.executor.begin();
        match first {
            Err(e) => Err(e),
            Ok(Some(reason)) => self.executor.finish(RunOutcome::MonitorHalt(reason), status),
            Ok(None) => {
                assert(same_tasks(old(self).world(), self.world()));
                match self.rounds() {
                    Err(e) => Err(e),
                    Ok(outcome) => self.executor.finish(outcome, status),
                }
            },
        }
    }

    /// The world around the simulation.
    pub closed spec fn held(self) -> H {
        self.executor.held()
    }

    /// Give the world back.
    pub fn into_host(self) -> (host: H)
        ensures
            host == self.held(),
            host.asked() == self.world().log,
    {
        self.executor.into_host()
    }
}

} // verus!
