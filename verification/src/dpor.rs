//! Bounded exploration of alternative schedules around one base run.
//!
//! One base run leads. Every causally plausible alternative at every step of
//! its trace is then run with a partial replay. A sleep-set test prunes flips
//! between causally ordered tasks by the vector clocks of their latest
//! entries; equal clocks count as concurrent. Only one base trace is
//! analysed, so no completeness is claimed beyond it.

use crate::bench::{
    lemma_no_visit, lemma_one_more_visit, round_trip, trial_of, trials_of, visited, Bench, Trial,
};
use crate::clock::{precedes, VectorClock};
use crate::config::{Policy, RunConfig, RunModel, SwarmConfig};
use crate::executor::task_actor;
use crate::executor::simulation::{opened, program_views, ran, Limits, Simulation};
use crate::host::{follows, law_every_log_has_its_script, replies, Ask, Host, Reply};
use crate::ids::{ActorId, EntryHash};
use crate::model::actor_of;
use crate::probability::{lemma_probability_of_bits, lemma_same_bits, probability_of_bits};
use crate::runtime::Instruction;
use crate::schedule::{report_of, RunReport, RunResult, RuntimeError};
use crate::sentinel::Protection;
use std::collections::HashMap;
use vstd::prelude::*;

verus! {

broadcast use {crate::host::lemma_extends, crate::host::lemma_follows};

/// Configuration of one exploration.
#[derive(Debug, Clone, Copy)]
pub struct DporConfig {
    /// Root seed shared by the base run and every flip.
    pub seed: EntryHash,
    /// Instruction budget per run.
    pub max_steps: usize,
    /// Maximum number of runs, base run included.
    pub max_runs: usize,
}

/// One explored run: the root it reached and the decisions that produced it.
#[derive(Debug, Clone, PartialEq, Eq)]
pub struct DporRun {
    /// Root of the run's journal.
    pub root_hash: EntryHash,
    /// Decisions of the run.
    pub decisions: Vec<usize>,
    /// Length of the forced replay prefix, or 0 for the base run.
    ///
    /// For a flip the decision at index `forced_prefix_len - 1` is the
    /// alternative choice under exploration.
    pub forced_prefix_len: usize,
}

/// Outcome of an exploration.
#[derive(Debug, Clone, PartialEq, Eq)]
pub struct DporReport {
    /// Every explored run, base run first.
    pub runs: Vec<DporRun>,
    /// Number of different journal roots.
    pub distinct_roots: usize,
    /// Number of flips explored (pruned ones excluded).
    pub explored_flips: usize,
    /// The `(step, alternative task)` keys of the explored flips.
    pub explored_flip_keys: Vec<(usize, usize)>,
}

/// The mathematical content of a [`DporRun`].
#[verifier::ext_equal]
pub struct ExploredRun {
    pub root_hash: EntryHash,
    pub decisions: Seq<usize>,
    pub forced_prefix_len: nat,
}

/// The mathematical content of a [`DporReport`].
#[verifier::ext_equal]
pub struct Exploration {
    pub runs: Seq<ExploredRun>,
    pub distinct_roots: nat,
    pub explored_flips: nat,
    pub explored_flip_keys: Seq<(usize, usize)>,
}

impl View for DporRun {
    type V = ExploredRun;

    open spec fn view(&self) -> ExploredRun {
        ExploredRun {
            root_hash: self.root_hash,
            decisions: self.decisions@,
            forced_prefix_len: self.forced_prefix_len as nat,
        }
    }
}

impl View for DporReport {
    type V = Exploration;

    open spec fn view(&self) -> Exploration {
        Exploration {
            runs: self.runs@.map_values(|r: DporRun| r@),
            distinct_roots: self.distinct_roots as nat,
            explored_flips: self.explored_flips as nat,
            explored_flip_keys: self.explored_flip_keys@,
        }
    }
}

/// One step of a scheduler's trace.
#[derive(Debug)]
pub struct StepTrace {
    /// Number of the step.
    pub step: usize,
    /// Ready tasks at the step.
    pub ready: Vec<usize>,
    /// Position in the ready list that was chosen.
    pub chosen: usize,
    /// Journal entries after the step.
    pub journal_len: usize,
}

/// The mathematical content of a [`StepTrace`].
pub struct TraceStep {
    pub step: usize,
    pub ready: Seq<usize>,
    pub chosen: usize,
    pub journal_len: usize,
}

impl View for StepTrace {
    type V = TraceStep;

    open spec fn view(&self) -> TraceStep {
        TraceStep {
            step: self.step,
            ready: self.ready@,
            chosen: self.chosen,
            journal_len: self.journal_len,
        }
    }
}

/// What is left to see of a world after a run.
#[derive(Debug)]
pub struct Observed {
    /// Root of the journal.
    pub root_hash: EntryHash,
    /// Trace of the scheduler.
    pub trace: Vec<StepTrace>,
    /// Actor and vector clock of each journal entry.
    pub entries: Vec<(ActorId, VectorClock)>,
}

/// The mathematical content of an [`Observed`].
pub struct Observation {
    pub root_hash: EntryHash,
    pub trace: Seq<TraceStep>,
    pub entries: Seq<(ActorId, Seq<(ActorId, u64)>)>,
}

/// Trace steps as values.
pub open spec fn trace_views(trace: Seq<StepTrace>) -> Seq<TraceStep> {
    trace.map_values(|t: StepTrace| t@)
}

/// Journal entries as values.
pub open spec fn entry_views(entries: Seq<(ActorId, VectorClock)>) -> Seq<
    (ActorId, Seq<(ActorId, u64)>),
> {
    entries.map_values(|e: (ActorId, VectorClock)| (e.0, e.1@))
}

impl View for Observed {
    type V = Observation;

    open spec fn view(&self) -> Observation {
        Observation {
            root_hash: self.root_hash,
            trace: trace_views(self.trace@),
            entries: entry_views(self.entries@),
        }
    }
}

/// An alternative decision.
#[derive(Debug, Clone, Copy, PartialEq, Eq, Structural)]
pub struct Flip {
    /// Step of the decision.
    pub step: usize,
    /// Task that runs instead of the chosen one.
    pub alt: usize,
    /// Its position in the ready list.
    pub position: usize,
}

/// The first trace position that does not fit the run: its choice is outside
/// its ready list, its step is past the decisions, or it counts more entries
/// than the journal holds.
pub open spec fn broken_at(trace: Seq<TraceStep>, decisions: nat, entries: nat, from: nat) -> Option<
    usize,
>
    decreases trace.len() - from,
{
    if from >= trace.len() {
        None
    } else {
        let t = trace[from as int];
        if t.chosen >= t.ready.len() || t.step > decisions || t.journal_len > entries {
            Some(from as usize)
        } else {
            broken_at(trace, decisions, entries, from + 1)
        }
    }
}

/// Entries that precede the branch point of a trace position.
pub open spec fn boundary(trace: Seq<TraceStep>, position: nat) -> nat
    decreases position,
{
    if position == 0 {
        0
    } else {
        let before = boundary(trace, (position - 1) as nat);
        let len = trace[position - 1].journal_len as nat;
        if len > before {
            len
        } else {
            before
        }
    }
}

/// Clock of an actor's latest entry among the first `len` entries.
pub open spec fn latest_clock(
    entries: Seq<(ActorId, Seq<(ActorId, u64)>)>,
    len: nat,
    actor: ActorId,
) -> Option<Seq<(ActorId, u64)>>
    decreases len,
{
    if len == 0 {
        None
    } else if entries[len - 1].0 == actor {
        Some(entries[len - 1].1)
    } else {
        latest_clock(entries, (len - 1) as nat, actor)
    }
}

/// The sleep-set test: the two tasks are causally ordered as of the branch
/// point. Tasks without entries, and tasks with equal clocks, are concurrent.
pub open spec fn ordered(
    entries: Seq<(ActorId, Seq<(ActorId, u64)>)>,
    len: nat,
    chosen: usize,
    alt: usize,
) -> bool {
    match (latest_clock(entries, len, actor_of(chosen)), latest_clock(entries, len, actor_of(alt))) {
        (Some(a), Some(b)) => precedes(a, b) || precedes(b, a),
        _ => false,
    }
}

/// Whether a flip of a step to a task is among the flips.
pub open spec fn seen(flips: Seq<Flip>, step: usize, alt: usize) -> bool {
    exists|i: int| 0 <= i < flips.len() && (#[trigger] flips[i]).step == step && flips[i].alt == alt
}

/// The flips so far together with those of the first `count` ready positions
/// of a trace step.
pub open spec fn flips_at(
    flips: Seq<Flip>,
    t: TraceStep,
    entries: Seq<(ActorId, Seq<(ActorId, u64)>)>,
    len: nat,
    count: nat,
) -> Seq<Flip>
    decreases count,
{
    if count == 0 {
        flips
    } else {
        let before = flips_at(flips, t, entries, len, (count - 1) as nat);
        let alt = t.ready[count - 1];
        if count - 1 == t.chosen || ordered(entries, len, t.ready[t.chosen as int], alt) || seen(
            before,
            t.step,
            alt,
        ) {
            before
        } else {
            before.push(Flip { step: t.step, alt, position: (count - 1) as usize })
        }
    }
}

/// The flips of the first `count` trace steps.
pub open spec fn flips_until(
    trace: Seq<TraceStep>,
    entries: Seq<(ActorId, Seq<(ActorId, u64)>)>,
    count: nat,
) -> Seq<Flip>
    decreases count,
{
    if count == 0 {
        Seq::empty()
    } else {
        let t = trace[count - 1];
        flips_at(
            flips_until(trace, entries, (count - 1) as nat),
            t,
            entries,
            boundary(trace, (count - 1) as nat),
            t.ready.len(),
        )
    }
}

/// The flips that an exploration runs: the first ones, as many as the budget
/// leaves beside the base run.
pub open spec fn flips_of(seen: Observation, max_runs: usize) -> Seq<Flip> {
    let all = flips_until(seen.trace, seen.entries, seen.trace.len());
    if max_runs <= 1 {
        Seq::empty()
    } else if all.len() < max_runs {
        all
    } else {
        all.take(max_runs - 1)
    }
}

/// The replay of a flip: the base decisions up to its step, then the
/// alternative.
pub open spec fn forced(decisions: Seq<usize>, flip: Flip) -> Seq<usize> {
    decisions.take(flip.step as int).push(flip.position)
}

/// Number of different roots.
pub open spec fn distinct(runs: Seq<ExploredRun>) -> nat {
    runs.map_values(|r: ExploredRun| r.root_hash).to_set().len()
}

/// What a run of an exploration is given.
pub struct Course {
    pub config: RunModel,
    pub limits: Limits,
    pub programs: Seq<Seq<Instruction>>,
    pub replay: Seq<usize>,
}

/// What a simulation makes of the answers of a world with the given past: its
/// result, and what the world has been asked by then.
pub open spec fn simulated(
    course: Course,
    protection: Protection,
    past: Seq<(Ask, Reply)>,
    script: Seq<Reply>,
) -> (Result<RunReport, RuntimeError>, Seq<(Ask, Reply)>) {
    let w = opened(
        course.config,
        course.limits,
        course.replay,
        Policy::Random,
        false,
        course.programs.len(),
        past,
        script,
    );
    let (result, after) = ran(
        w,
        course.programs,
        course.config.max_steps,
        course.config.monitor,
        protection,
        script,
    );
    (result, after.log)
}

/// The result of a run in the world of a trial.
pub open spec fn outcome(course: Course, t: Trial) -> Result<RunReport, RuntimeError> {
    simulated(course, t.protection, t.past, replies(t.log)).0
}

/// The world of the trial was asked what the run asks, and nothing else. It was
/// looked at when the run succeeded, and only then.
pub open spec fn genuine(course: Course, t: Trial) -> bool {
    &&& forall|script: Seq<Reply>|
        follows(script, t.log) ==> #[trigger] simulated(course, t.protection, t.past, script) == (
            outcome(course, t),
            t.log,
        )
    &&& outcome(course, t) is Ok <==> t.observed is Some
}

/// The configuration of an exploration's runs: defaults but for seed, policy
/// and budget.
pub open spec fn exploring(cfg: DporConfig, policy: Policy) -> RunModel {
    RunModel {
        seed: cfg.seed,
        policy,
        max_steps: cfg.max_steps,
        dropped_events: Seq::empty(),
        swarm: SwarmConfig {
            drop_probability: probability_of_bits(0),
            delay_probability: probability_of_bits(0),
            max_delay_ticks: 0,
            crash_probability: probability_of_bits(0),
            fault_classes_per_run: 2,
        },
        links: Seq::empty(),
        dns: Seq::empty(),
        fault_schedule: Seq::empty(),
        fs_journaling: None,
        monitor: true,
        reorder_draw: false,
        max_file_extent: None,
        max_resident_bytes: None,
    }
}

/// What the base run is given.
pub open spec fn base_course(
    programs: Seq<Seq<Instruction>>,
    cfg: DporConfig,
    limits: Limits,
) -> Course {
    Course { config: exploring(cfg, Policy::Dpor), limits, programs, replay: Seq::empty() }
}

/// What the run of a trial is given: the first is the base run, each later one
/// forces its flip.
pub open spec fn course_of(
    programs: Seq<Seq<Instruction>>,
    cfg: DporConfig,
    limits: Limits,
    trials: Seq<Trial>,
    flips: Seq<Flip>,
    i: int,
) -> Course {
    let base = base_course(programs, cfg, limits);
    if i == 0 {
        base
    } else {
        Course {
            config: exploring(cfg, Policy::Replay),
            limits,
            programs,
            replay: forced((outcome(base, trials[0])->Ok_0).decisions, flips[i - 1]),
        }
    }
}

/// A run as the report keeps it.
pub open spec fn explored_run(course: Course, t: Trial) -> ExploredRun {
    ExploredRun {
        root_hash: (t.observed->Some_0).root_hash,
        decisions: (outcome(course, t)->Ok_0).decisions,
        forced_prefix_len: course.replay.len(),
    }
}

/// The report of an exploration whose runs all succeeded.
pub open spec fn summary(
    programs: Seq<Seq<Instruction>>,
    cfg: DporConfig,
    limits: Limits,
    trials: Seq<Trial>,
    flips: Seq<Flip>,
) -> Exploration {
    reported(
        Seq::new(
            trials.len(),
            |i: int| explored_run(course_of(programs, cfg, limits, trials, flips, i), trials[i]),
        ),
        flips,
    )
}

/// The report of the runs of flips, the base run first.
pub open spec fn reported(runs: Seq<ExploredRun>, flips: Seq<Flip>) -> Exploration {
    Exploration {
        runs,
        distinct_roots: distinct(runs),
        explored_flips: flips.len(),
        explored_flip_keys: flips.map_values(|f: Flip| (f.step, f.alt)),
    }
}

/// A report, or the error that ended the exploration.
pub open spec fn exploration_of(r: Result<DporReport, RuntimeError>) -> Result<
    Exploration,
    RuntimeError,
> {
    match r {
        Ok(report) => Ok(report@),
        Err(e) => Err(e),
    }
}

/// The flips that a base run leaves to explore, or the error of a trace that
/// does not fit the run.
pub open spec fn planned(decisions: nat, observed: Observation, max_runs: usize) -> Result<
    Seq<Flip>,
    RuntimeError,
> {
    match broken_at(observed.trace, decisions, observed.entries.len(), 0) {
        Some(position) => Err(RuntimeError::BrokenTrace { position }),
        None => Ok(flips_of(observed, max_runs)),
    }
}

/// Every trial is the run that its place calls for, and all but the last
/// succeeded.
pub open spec fn conducted(
    programs: Seq<Seq<Instruction>>,
    cfg: DporConfig,
    limits: Limits,
    trials: Seq<Trial>,
    flips: Seq<Flip>,
) -> bool {
    &&& 0 < trials.len() <= flips.len() + 1
    &&& forall|i: int|
        0 <= i < trials.len() ==> genuine(
            course_of(programs, cfg, limits, trials, flips, i),
            #[trigger] trials[i],
        )
    &&& forall|i: int| 0 <= i < trials.len() - 1 ==> (#[trigger] trials[i]).observed is Some
}

/// The trials are those of the exploration, and the report is theirs.
pub open spec fn explored(
    programs: Seq<Seq<Instruction>>,
    cfg: DporConfig,
    limits: Limits,
    trials: Seq<Trial>,
    report: Result<Exploration, RuntimeError>,
) -> bool {
    match outcome(base_course(programs, cfg, limits), trials[0]) {
        Err(e) => {
            &&& trials.len() == 1
            &&& conducted(programs, cfg, limits, trials, Seq::empty())
            &&& report == Err::<Exploration, RuntimeError>(e)
        },
        Ok(base) => match planned(
            base.decisions.len(),
            trials[0].observed->Some_0,
            cfg.max_runs,
        ) {
            Err(e) => {
                &&& trials.len() == 1
                &&& conducted(programs, cfg, limits, trials, Seq::empty())
                &&& report == Err::<Exploration, RuntimeError>(e)
            },
            Ok(flips) => {
                &&& conducted(programs, cfg, limits, trials, flips)
                &&& match outcome(
                    course_of(programs, cfg, limits, trials, flips, trials.len() - 1),
                    trials.last(),
                ) {
                    Err(e) => report == Err::<Exploration, RuntimeError>(e),
                    Ok(_) => {
                        &&& trials.len() == flips.len() + 1
                        &&& report == Ok::<Exploration, RuntimeError>(
                            summary(programs, cfg, limits, trials, flips),
                        )
                    },
                }
            },
        },
    }
}

/// Copy programs.
fn copy_programs(programs: &Vec<Vec<Instruction>>) -> (copy: Vec<Vec<Instruction>>)
    ensures
        program_views(copy@) == program_views(programs@),
        copy@.len() == programs@.len(),
{
    let mut copy: Vec<Vec<Instruction>> = Vec::new();
    let mut i: usize = 0;
    while i < programs.len()
        invariant
            i <= programs@.len(),
            copy@.len() == i,
            forall|k: int| 0 <= k < i ==> (#[trigger] copy@[k])@ == programs@[k]@,
        decreases programs@.len() - i,
    {
        let mut program: Vec<Instruction> = Vec::new();
        let mut j: usize = 0;
        while j < programs[i].len()
            invariant
                i < programs@.len(),
                j <= programs@[i as int]@.len(),
                program@ == programs@[i as int]@.take(j as int),
            decreases programs@[i as int]@.len() - j,
        {
            program.push(programs[i][j].clone());
            j = j + 1;
            assert(program@ =~= programs@[i as int]@.take(j as int));
        }
        assert(program@ =~= programs@[i as int]@);
        copy.push(program);
        i = i + 1;
    }
    assert(program_views(copy@) =~= program_views(programs@));
    copy
}

/// Run the programs once in a world of the bench.
fn run_trial<B: Bench>(
    bench: &mut B,
    config: RunConfig,
    limits: Limits,
    programs: &Vec<Vec<Instruction>>,
    replay: Vec<usize>,
) -> (r: Result<(RunResult, Observed), RuntimeError>)
    ensures
        ({
            let (before, after) = (old(bench).visits(), final(bench).visits());
            &&& after.len() == before.len() + 2
            &&& after == before.push(after[before.len() as int]).push(after.last())
            &&& round_trip(after[before.len() as int], after.last())
        }),
        ({
            let (before, after) = (old(bench).visits(), final(bench).visits());
            let course = Course {
                config: config@,
                limits,
                programs: program_views(programs@),
                replay: replay@,
            };
            let t = trial_of(after[before.len() as int], after.last());
            &&& genuine(course, t)
            &&& match r {
                Ok((run, observed)) => outcome(course, t) == Ok::<_, RuntimeError>(run@)
                    && t.observed == Some(observed@),
                Err(e) => outcome(course, t) == Err::<RunReport, _>(e),
            }
        }),
{
    let ghost course = Course {
        config: config@,
        limits,
        programs: program_views(programs@),
        replay: replay@,
    };
    let (world, protection): (B::World, Protection) = bench.open();
    let ghost past = world.asked();
    let mut simulation: Simulation<B::World> = Simulation::with_replay_and_fallback(
        config,
        limits,
        copy_programs(programs),
        replay,
        Policy::Random,
        world,
    );
    let ghost start = simulation.world();
    let r: Result<RunResult, RuntimeError> = simulation.run(protection);
    let world: B::World = simulation.into_host();
    let ghost log = world.asked();
    proof {
        assert forall|script: Seq<Reply>| follows(script, log) implies #[trigger] simulated(
            course,
            protection,
            past,
            script,
        ) == (report_of(r), log) by {
            assert(follows(script, start.log));
            assert(opened(
                course.config,
                limits,
                course.replay,
                Policy::Random,
                false,
                course.programs.len(),
                past,
                script,
            ) == start);
        }
        law_every_log_has_its_script(log);
    }
    match r {
        Err(e) => {
            bench.leave(world);
            Err(e)
        },
        Ok(run) => {
            let observed: Observed = bench.inspect(world);
            Ok((run, observed))
        },
    }
}

/// The first trace position that does not fit the run.
fn find_broken(trace: &Vec<StepTrace>, decisions: usize, entries: usize) -> (position: Option<usize>)
    ensures
        position == broken_at(trace_views(trace@), decisions as nat, entries as nat, 0),
{
    let mut i: usize = 0;
    while i < trace.len()
        invariant
            i <= trace@.len(),
            broken_at(trace_views(trace@), decisions as nat, entries as nat, 0) == broken_at(
                trace_views(trace@),
                decisions as nat,
                entries as nat,
                i as nat,
            ),
        decreases trace@.len() - i,
    {
        let t: &StepTrace = &trace[i];
        assert(trace_views(trace@)[i as int] == t@);
        if t.chosen >= t.ready.len() || t.step > decisions || t.journal_len > entries {
            return Some(i);
        }
        i = i + 1;
    }
    None
}

/// A trace without broken positions fits the run everywhere.
pub proof fn lemma_unbroken(trace: Seq<TraceStep>, decisions: nat, entries: nat, from: nat, at: int)
    requires
        broken_at(trace, decisions, entries, from) is None,
        from <= at < trace.len(),
    ensures
        trace[at].chosen < trace[at].ready.len(),
        trace[at].step <= decisions,
        trace[at].journal_len <= entries,
    decreases trace.len() - from,
{
    if from < at {
        lemma_unbroken(trace, decisions, entries, from + 1, at);
    }
}

/// Where each actor's latest entry stands.
pub open spec fn indexed(
    last: Map<u32, usize>,
    entries: Seq<(ActorId, Seq<(ActorId, u64)>)>,
    len: nat,
) -> bool {
    forall|actor: u32|
        latest_clock(entries, len, ActorId(actor)) == #[trigger] clock_at(last, entries, actor)
}

/// The clock of the entry that an index names for an actor.
pub open spec fn clock_at(
    last: Map<u32, usize>,
    entries: Seq<(ActorId, Seq<(ActorId, u64)>)>,
    actor: u32,
) -> Option<Seq<(ActorId, u64)>> {
    if last.contains_key(actor) && last[actor] < entries.len() {
        Some(entries[last[actor] as int].1)
    } else {
        None
    }
}

/// Sleep-set test: prunes the flip when the tasks are causally ordered as of
/// the branch point; missing or equal clocks count as concurrent.
fn sleep_set_pruned(
    last: &HashMap<u32, usize>,
    entries: &Vec<(ActorId, VectorClock)>,
    chosen: usize,
    alt: usize,
    Ghost(len): Ghost<nat>,
) -> (pruned: bool)
    requires
        indexed(last@, entry_views(entries@), len),
    ensures
        pruned == ordered(entry_views(entries@), len, chosen, alt),
{
    broadcast use vstd::std_specs::hash::group_hash_axioms;

    let chosen_actor: u32 = task_actor(chosen).0;
    let alt_actor: u32 = task_actor(alt).0;
    proof {
        let views = entry_views(entries@);
        assert(latest_clock(views, len, ActorId(chosen_actor)) == clock_at(
            last@,
            views,
            chosen_actor,
        ));
        assert(latest_clock(views, len, ActorId(alt_actor)) == clock_at(last@, views, alt_actor));
    }
    match (last.get(&chosen_actor), last.get(&alt_actor)) {
        (Some(a), Some(b)) => {
            if *a < entries.len() && *b < entries.len() {
                assert(entry_views(entries@)[*a as int].1 == entries@[*a as int].1@);
                assert(entry_views(entries@)[*b as int].1 == entries@[*b as int].1@);
                entries[*a].1.happens_before(&entries[*b].1) || entries[*b].1.happens_before(
                    &entries[*a].1,
                )
            } else {
                false
            }
        },
        _ => false,
    }
}

/// Whether a flip of a step to a task is among the flips.
fn is_seen(flips: &Vec<Flip>, step: usize, alt: usize) -> (yes: bool)
    ensures
        yes == seen(flips@, step, alt),
{
    let mut i: usize = 0;
    while i < flips.len()
        invariant
            i <= flips@.len(),
            forall|k: int|
                0 <= k < i ==> !((#[trigger] flips@[k]).step == step && flips@[k].alt == alt),
        decreases flips@.len() - i,
    {
        if flips[i].step == step && flips[i].alt == alt {
            return true;
        }
        i = i + 1;
    }
    false
}

/// All flips of a trace, in the order in which they are explored.
pub fn plan_flips(trace: &Vec<StepTrace>, entries: &Vec<(ActorId, VectorClock)>) -> (flips: Vec<
    Flip,
>)
    requires
        forall|i: int|
            0 <= i < trace@.len() ==> (#[trigger] trace@[i]).chosen < trace@[i].ready@.len()
                && trace@[i].journal_len <= entries@.len(),
    ensures
        flips@ == flips_until(trace_views(trace@), entry_views(entries@), trace@.len()),
{
    broadcast use vstd::std_specs::hash::group_hash_axioms;

    let ghost steps = trace_views(trace@);
    let ghost clocks = entry_views(entries@);
    let mut flips: Vec<Flip> = Vec::new();
    let mut last: HashMap<u32, usize> = HashMap::new();
    let mut known: usize = 0;
    let mut i: usize = 0;
    while i < trace.len()
        invariant
            steps == trace_views(trace@),
            clocks == entry_views(entries@),
            i <= trace@.len(),
            forall|k: int|
                0 <= k < trace@.len() ==> (#[trigger] trace@[k]).chosen < trace@[k].ready@.len()
                    && trace@[k].journal_len <= entries@.len(),
            known == boundary(steps, i as nat),
            known <= entries@.len(),
            indexed(last@, clocks, known as nat),
            flips@ == flips_until(steps, clocks, i as nat),
        decreases trace@.len() - i,
    {
        let t: &StepTrace = &trace[i];
        assert(steps[i as int] == t@);
        let ghost earlier = flips@;
        let chosen_task: usize = t.ready[t.chosen];
        let mut position: usize = 0;
        while position < t.ready.len()
            invariant
                clocks == entry_views(entries@),
                position <= t.ready@.len(),
                t.chosen < t.ready@.len(),
                chosen_task == t.ready@[t.chosen as int],
                indexed(last@, clocks, known as nat),
                flips@ == flips_at(earlier, t@, clocks, known as nat, position as nat),
            decreases t.ready@.len() - position,
        {
            let alt: usize = t.ready[position];
            let skip: bool = position == t.chosen || sleep_set_pruned(
                &last,
                entries,
                chosen_task,
                alt,
                Ghost(known as nat),
            ) || is_seen(&flips, t.step, alt);
            if !skip {
                flips.push(Flip { step: t.step, alt, position });
            }
            position = position + 1;
        }
        while known < t.journal_len
            invariant
                clocks == entry_views(entries@),
                t.journal_len <= entries@.len(),
                boundary(steps, i as nat) <= known <= entries@.len(),
                known <= t.journal_len || known == boundary(steps, i as nat),
                indexed(last@, clocks, known as nat),
            decreases t.journal_len - known,
        {
            let ghost before = last@;
            let actor: ActorId = entries[known].0;
            last.insert(actor.0, known);
            proof {
                assert(clocks[known as int] == (entries@[known as int].0, entries@[known as int].1@));
                assert forall|a: u32|
                    latest_clock(clocks, (known + 1) as nat, ActorId(a)) == #[trigger] clock_at(
                        last@,
                        clocks,
                        a,
                    ) by {
                    assert(latest_clock(clocks, known as nat, ActorId(a)) == clock_at(
                        before,
                        clocks,
                        a,
                    ));
                }
            }
            known = known + 1;
        }
        i = i + 1;
    }
    flips
}

/// Number of different roots.
fn count_roots(runs: &Vec<DporRun>) -> (count: usize)
    ensures
        count == distinct(runs@.map_values(|r: DporRun| r@)),
{
    let ghost roots = runs@.map_values(|r: DporRun| r@).map_values(|r: ExploredRun| r.root_hash);
    let mut count: usize = 0;
    let mut i: usize = 0;
    assert(roots.take(0).to_set() =~= Set::<EntryHash>::empty());
    while i < runs.len()
        invariant
            roots.len() == runs@.len(),
            forall|k: int| 0 <= k < runs@.len() ==> #[trigger] roots[k] == runs@[k].root_hash,
            i <= runs@.len(),
            count <= i,
            count == roots.take(i as int).to_set().len(),
            roots.take(i as int).to_set().finite(),
        decreases runs@.len() - i,
    {
        let root: EntryHash = runs[i].root_hash;
        let mut met: bool = false;
        let mut j: usize = 0;
        while j < i
            invariant
                i < runs@.len(),
                j <= i,
                root == runs@[i as int].root_hash,
                met <==> exists|k: int| 0 <= k < j && (#[trigger] runs@[k]).root_hash == root,
            decreases i - j,
        {
            if runs[j].root_hash == root {
                met = true;
            }
            j = j + 1;
        }
        proof {
            let before = roots.take(i as int);
            let after = roots.take(i + 1);
            assert(after =~= before.push(root));
            assert(after.to_set() =~= before.to_set().insert(root)) by {
                assert forall|x: EntryHash| after.contains(x) <==> before.contains(x) || x == root by {
                    if after.contains(x) {
                        let k = choose|k: int| 0 <= k < after.len() && after[k] == x;
                        if k < i {
                            assert(before[k] == x);
                        }
                    }
                    if before.contains(x) {
                        let k = choose|k: int| 0 <= k < before.len() && before[k] == x;
                        assert(after[k] == x);
                    }
                    assert(after[i as int] == root);
                }
            }
            if met {
                let k = choose|k: int| 0 <= k < i && (#[trigger] runs@[k]).root_hash == root;
                assert(before[k] == root);
            } else if before.contains(root) {
                let k = choose|k: int| 0 <= k < before.len() && before[k] == root;
                assert(runs@[k].root_hash == root);
            }
        }
        if !met {
            count = count + 1;
        }
        i = i + 1;
    }
    assert(roots.take(i as int) =~= roots);
    count
}

/// The configuration of the exploration's runs.
fn exploring_config(cfg: &DporConfig, policy: Policy) -> (config: RunConfig)
    ensures
        config@ == exploring(*cfg, policy),
{
    let config: RunConfig = RunConfig::builder().seed(cfg.seed).policy(policy).max_steps(
        cfg.max_steps,
    ).build();
    proof {
        let swarm = config@.swarm;
        let none = probability_of_bits(0);
        lemma_probability_of_bits(0);
        lemma_same_bits(swarm.drop_probability, none);
        lemma_same_bits(swarm.delay_probability, none);
        lemma_same_bits(swarm.crash_probability, none);
        assert(config@ =~= exploring(*cfg, policy));
    }
    config
}

/// The replay of a flip.
fn forced_replay(decisions: &Vec<usize>, flip: &Flip) -> (replay: Vec<usize>)
    requires
        flip.step <= decisions@.len(),
    ensures
        replay@ == forced(decisions@, *flip),
{
    let mut replay: Vec<usize> = Vec::new();
    let mut i: usize = 0;
    while i < flip.step
        invariant
            i <= flip.step <= decisions@.len(),
            replay@ == decisions@.take(i as int),
        decreases flip.step - i,
    {
        replay.push(decisions[i]);
        i = i + 1;
        assert(replay@ =~= decisions@.take(i as int));
    }
    replay.push(flip.position);
    replay
}

/// Every flip belongs to a step of the trace.
pub proof fn lemma_flips_fit(
    trace: Seq<TraceStep>,
    entries: Seq<(ActorId, Seq<(ActorId, u64)>)>,
    count: nat,
    decisions: nat,
)
    requires
        count <= trace.len(),
        forall|i: int| 0 <= i < trace.len() ==> (#[trigger] trace[i]).step <= decisions,
    ensures
        forall|k: int|
            0 <= k < flips_until(trace, entries, count).len() ==> (#[trigger] flips_until(
                trace,
                entries,
                count,
            )[k]).step <= decisions,
    decreases count,
{
    if count > 0 {
        let before = (count - 1) as nat;
        lemma_flips_fit(trace, entries, before, decisions);
        let t = trace[count - 1];
        lemma_flips_at_fit(
            flips_until(trace, entries, before),
            t,
            entries,
            boundary(trace, before),
            t.ready.len(),
            decisions,
        );
    }
}

proof fn lemma_flips_at_fit(
    flips: Seq<Flip>,
    t: TraceStep,
    entries: Seq<(ActorId, Seq<(ActorId, u64)>)>,
    len: nat,
    count: nat,
    decisions: nat,
)
    requires
        t.step <= decisions,
        forall|k: int| 0 <= k < flips.len() ==> (#[trigger] flips[k]).step <= decisions,
    ensures
        forall|k: int|
            0 <= k < flips_at(flips, t, entries, len, count).len() ==> (#[trigger] flips_at(
                flips,
                t,
                entries,
                len,
                count,
            )[k]).step <= decisions,
    decreases count,
{
    if count > 0 {
        lemma_flips_at_fit(flips, t, entries, len, (count - 1) as nat, decisions);
        let before = flips_at(flips, t, entries, len, (count - 1) as nat);
        let after = flips_at(flips, t, entries, len, count);
        assert forall|k: int| 0 <= k < after.len() implies (#[trigger] after[k]).step
            <= decisions by {
            if k < before.len() {
                assert(after[k] == before[k]);
            }
        }
    }
}

/// Plan the flips of a base run from what was seen of its world: as many as the
/// budget leaves beside the base run.
///
/// # Errors
/// A trace that does not fit the run.
pub fn plan_exploration(decisions: &Vec<usize>, observed: &Observed, max_runs: usize) -> (r: Result<
    Vec<Flip>,
    RuntimeError,
>)
    ensures
        match r {
            Ok(flips) => {
                &&& planned(decisions@.len(), observed@, max_runs) == Ok::<_, RuntimeError>(flips@)
                &&& forall|k: int|
                    0 <= k < flips@.len() ==> (#[trigger] flips@[k]).step <= decisions@.len()
            },
            Err(e) => planned(decisions@.len(), observed@, max_runs) == Err::<Seq<Flip>, _>(e),
        },
{
    let count: usize = decisions.len();
    if let Some(position) = find_broken(&observed.trace, count, observed.entries.len()) {
        return Err(RuntimeError::BrokenTrace { position });
    }
    proof {
        assert forall|i: int| 0 <= i < observed.trace@.len() implies (#[trigger] observed.trace@[i]).chosen
            < observed.trace@[i].ready@.len() && observed.trace@[i].journal_len
            <= observed.entries@.len() by {
            lemma_unbroken(observed@.trace, count as nat, observed.entries@.len(), 0, i);
            assert(observed@.trace[i] == observed.trace@[i]@);
        }
        assert forall|i: int| 0 <= i < observed@.trace.len() implies (#[trigger] observed@.trace[i]).step
            <= count by {
            lemma_unbroken(observed@.trace, count as nat, observed.entries@.len(), 0, i);
        }
        lemma_flips_fit(observed@.trace, observed@.entries, observed@.trace.len(), count as nat);
    }
    let mut flips: Vec<Flip> = plan_flips(&observed.trace, &observed.entries);
    if max_runs <= 1 {
        flips.truncate(0);
    } else if flips.len() >= max_runs {
        flips.truncate(max_runs - 1);
    }
    assert(flips@ =~= flips_of(observed@, max_runs));
    Ok(flips)
}

/// The report of the runs of flips, the base run first.
pub fn assemble_report(runs: Vec<DporRun>, flips: &Vec<Flip>) -> (report: DporReport)
    ensures
        report@ == reported(runs@.map_values(|r: DporRun| r@), flips@),
{
    let mut keys: Vec<(usize, usize)> = Vec::new();
    let mut at: usize = 0;
    while at < flips.len()
        invariant
            at <= flips@.len(),
            keys@ == flips@.take(at as int).map_values(|f: Flip| (f.step, f.alt)),
        decreases flips@.len() - at,
    {
        keys.push((flips[at].step, flips[at].alt));
        at = at + 1;
        assert(keys@ =~= flips@.take(at as int).map_values(|f: Flip| (f.step, f.alt)));
    }
    assert(flips@.take(at as int) =~= flips@);
    DporReport {
        distinct_roots: count_roots(&runs),
        explored_flips: flips.len(),
        explored_flip_keys: keys,
        runs,
    }
}

/// Explore alternative schedules around one base run.
///
/// The base run leads the report; each flip forces one alternative decision
/// and continues at random. An error of any run ends the exploration.
pub fn run_dpor<B: Bench>(
    programs: Vec<Vec<Instruction>>,
    cfg: &DporConfig,
    limits: Limits,
    bench: &mut B,
) -> (r: Result<DporReport, RuntimeError>)
    ensures
        visited(old(bench).visits(), final(bench).visits()),
        explored(
            program_views(programs@),
            *cfg,
            limits,
            trials_of(old(bench).visits(), final(bench).visits()),
            exploration_of(r),
        ),
{
    let ghost start = bench.visits();
    let ghost views = program_views(programs@);
    let ghost base_plan = base_course(views, *cfg, limits);
    let first: Result<(RunResult, Observed), RuntimeError> = run_trial(
        bench,
        exploring_config(cfg, Policy::Dpor),
        limits,
        &programs,
        Vec::new(),
    );
    proof {
        lemma_no_visit(start);
        let visits = bench.visits();
        lemma_one_more_visit(start, start, visits[start.len() as int], visits.last());
        let trials = trials_of(start, visits);
        assert(trials.len() == 1);
        assert(conducted(views, *cfg, limits, trials, Seq::empty()));
    }
    let (base, observed): (RunResult, Observed) = match first {
        Err(e) => return Err(e),
        Ok(pair) => pair,
    };
    let decisions: Vec<usize> = base.decisions;
    let flips: Vec<Flip> = match plan_exploration(&decisions, &observed, cfg.max_runs) {
        Err(e) => return Err(e),
        Ok(flips) => flips,
    };
    let ghost first_trial = trials_of(start, bench.visits())[0];
    let mut runs: Vec<DporRun> = Vec::new();
    let mut at: usize = 0;
    while at < flips.len()
        invariant
            at <= flips@.len(),
            start == old(bench).visits(),
            views == program_views(programs@),
            base_plan == base_course(views, *cfg, limits),
            forall|k: int| 0 <= k < flips@.len() ==> (#[trigger] flips@[k]).step <= decisions@.len(),
            planned(decisions@.len(), observed@, cfg.max_runs) == Ok::<_, RuntimeError>(flips@),
            visited(start, bench.visits()),
            trials_of(start, bench.visits()).len() == at + 1,
            trials_of(start, bench.visits())[0] == first_trial,
            first_trial.observed == Some(observed@),
            outcome(base_plan, first_trial) is Ok,
            (outcome(base_plan, first_trial)->Ok_0).decisions == decisions@,
            conducted(views, *cfg, limits, trials_of(start, bench.visits()), flips@),
            trials_of(start, bench.visits()).last().observed is Some,
            runs@.len() == at,
            forall|k: int|
                0 <= k < at ==> (#[trigger] runs@[k])@ == explored_run(
                    course_of(views, *cfg, limits, trials_of(start, bench.visits()), flips@, k + 1),
                    trials_of(start, bench.visits())[k + 1],
                ),
        decreases flips@.len() - at,
    {
        let flip: Flip = flips[at];
        let replay: Vec<usize> = forced_replay(&decisions, &flip);
        let forced_prefix_len: usize = replay.len();
        let ghost so_far = bench.visits();
        let ghost before = trials_of(start, bench.visits());
        let outcome_of_flip: Result<(RunResult, Observed), RuntimeError> = run_trial(
            bench,
            exploring_config(cfg, Policy::Replay),
            limits,
            &programs,
            replay,
        );
        let ghost trials = trials_of(start, bench.visits());
        proof {
            let visits = bench.visits();
            lemma_one_more_visit(start, so_far, visits[so_far.len() as int], visits.last());
            lemma_conducted_one_more(views, *cfg, limits, before, trials.last(), flips@);
            assert(trials =~= before.push(trials.last()));
        }
        let (run, after): (RunResult, Observed) = match outcome_of_flip {
            Err(e) => return Err(e),
            Ok(pair) => pair,
        };
        let ghost earlier = runs@;
        runs.push(
            DporRun { root_hash: after.root_hash, decisions: run.decisions, forced_prefix_len },
        );
        at = at + 1;
        proof {
            assert forall|k: int| 0 <= k < at implies (#[trigger] runs@[k])@ == explored_run(
                course_of(views, *cfg, limits, trials, flips@, k + 1),
                trials[k + 1],
            ) by {
                if k < at - 1 {
                    assert(runs@[k] == earlier[k]);
                    assert(trials[k + 1] == before[k + 1]);
                }
            }
        }
    }
    let ghost tail = runs@;
    runs.insert(
        0,
        DporRun { root_hash: observed.root_hash, decisions, forced_prefix_len: 0 },
    );
    proof {
        let trials = trials_of(start, bench.visits());
        let wanted = summary(views, *cfg, limits, trials, flips@).runs;
        let run_views = runs@.map_values(|r: DporRun| r@);
        assert(run_views =~= wanted) by {
            assert forall|k: int| 0 <= k < wanted.len() implies run_views[k] == wanted[k] by {
                if k > 0 {
                    assert(runs@[k] == tail[k - 1]);
                }
            }
        }
    }
    Ok(assemble_report(runs, &flips))
}

/// One more trial, the run of its flip, after trials that succeeded.
proof fn lemma_conducted_one_more(
    programs: Seq<Seq<Instruction>>,
    cfg: DporConfig,
    limits: Limits,
    trials: Seq<Trial>,
    next: Trial,
    flips: Seq<Flip>,
)
    requires
        conducted(programs, cfg, limits, trials, flips),
        trials.last().observed is Some,
        trials.len() <= flips.len(),
        genuine(course_of(programs, cfg, limits, trials, flips, trials.len() as int), next),
    ensures
        conducted(programs, cfg, limits, trials.push(next), flips),
{
    let after = trials.push(next);
    assert forall|i: int| 0 <= i < after.len() implies genuine(
        course_of(programs, cfg, limits, after, flips, i),
        #[trigger] after[i],
    ) by {
        assert(course_of(programs, cfg, limits, after, flips, i) == course_of(
            programs,
            cfg,
            limits,
            trials,
            flips,
            i,
        ));
        if i < trials.len() {
            assert(after[i] == trials[i]);
        }
    }
    assert forall|i: int| 0 <= i < after.len() - 1 implies (#[trigger] after[i]).observed is Some by {
        assert(after[i] == trials[i]);
        assert(i < trials.len() - 1 || trials[i] == trials.last());
    }
}

} // verus!
