//! Laws of whole runs.

use crate::books::{
    booked, count_of, entries_in, lemma_sound_aside, lemma_sound_refl, sound, wrapped,
};
use crate::config::{Policy, RunModel};
use crate::executor::simulation::{
    begun, first_state, first_world, opened, polled, ran, round_done, rounds_done, started, Limits,
    RunState,
};
use crate::host::{follows, Ask, Reply, TimerFired};
use crate::ids::EntryHash;
use crate::journal::EntryKind;
use crate::model::{actor_of, appended, notified, told, World};
use crate::net::earliest;
use crate::program::program_polled;
use crate::runtime::{Instruction, RunOutcome};
use crate::schedule::{
    all_done, all_fired, all_woken, batch_appended, choice_draft, coverage_of, delivery_awaited,
    one_fired, one_woken, paired, poll_noted, quiesced, registers_of, roots_journaled, run_ended,
    sooner, spawn_draft, step_begun, step_ended, swapped_out, task_chosen, timer_batch,
    timers_fired, timers_journaled, turn_taken, unblocked, wake_draft, wake_list, woken, work_found,
    RunReport, RuntimeError, Turn,
};
use crate::sentinel::{admitted, BeltStatus, Protection, ProtectionMode};
use crate::soundness::{
    lemma_appended, lemma_batch_appended, lemma_idle, lemma_notified, lemma_program_polled,
};
use vstd::prelude::*;

verus! {

broadcast use crate::books::lemma_sound_chain;

proof fn lemma_roots_journaled(w: World, n: nat, script: Seq<Reply>)
    ensures
        sound(w, roots_journaled(w, n, script).1),
    decreases n,
{
    if n == 0 {
        lemma_sound_refl(w);
    } else {
        lemma_roots_journaled(w, (n - 1) as nat, script);
        let w1 = roots_journaled(w, (n - 1) as nat, script).1;
        lemma_appended(w1, spawn_draft((n - 1) as usize), script);
    }
}

pub(crate) proof fn lemma_one_woken(w: World, task: usize, now: u64, script: Seq<Reply>)
    ensures
        sound(w, one_woken(w, task, now, script).1),
{
    let entry = wake_draft(w.net, task, now);
    let (answer, w1) = appended(w, entry, script);
    lemma_appended(w, entry, script);
    if let Ok(id) = answer {
        lemma_notified(w1, actor_of(task), EntryKind::Wake, task, Some(id), script);
        let w2 = notified(w1, actor_of(task), EntryKind::Wake, task, Some(id), script);
        lemma_sound_aside(w2, unblocked(w2, task));
    }
}

pub(crate) proof fn lemma_all_woken(w: World, list: Seq<usize>, now: u64, script: Seq<Reply>)
    ensures
        sound(w, all_woken(w, list, now, script).1),
    decreases list.len(),
{
    if list.len() == 0 {
        lemma_sound_refl(w);
    } else {
        lemma_all_woken(w, list.drop_last(), now, script);
        let w1 = all_woken(w, list.drop_last(), now, script).1;
        lemma_one_woken(w1, list.last(), now, script);
    }
}

pub(crate) proof fn lemma_woken(w: World, script: Seq<Reply>)
    ensures
        sound(w, woken(w, script).1),
{
    let (reply, w1) = told(w, Ask::Now, script);
    lemma_idle(w, Ask::Now, script);
    let now = reply->Ticks_0;
    lemma_all_woken(w1, wake_list(w1.tasks, w1.net, now), now, script);
}

pub(crate) proof fn lemma_all_fired(
    w: World,
    fired: Seq<TimerFired>,
    ids: Seq<EntryHash>,
    n: nat,
    script: Seq<Reply>,
)
    ensures
        sound(w, all_fired(w, fired, ids, n, script)),
    decreases n,
{
    if n == 0 {
        lemma_sound_refl(w);
    } else {
        lemma_all_fired(w, fired, ids, (n - 1) as nat, script);
        let w0 = all_fired(w, fired, ids, (n - 1) as nat, script);
        let timer = fired[n - 1];
        let actor = actor_of(timer.task);
        let fire = ids[2 * (n - 1)];
        let wake = ids[2 * (n - 1) + 1];
        lemma_notified(w0, actor, EntryKind::TimerFire, timer.task, Some(fire), script);
        let w1 = notified(w0, actor, EntryKind::TimerFire, timer.task, Some(fire), script);
        lemma_notified(w1, actor, EntryKind::Wake, timer.task, Some(wake), script);
        let w2 = notified(w1, actor, EntryKind::Wake, timer.task, Some(wake), script);
        lemma_sound_aside(w2, one_fired(w0, timer, fire, wake, script));
    }
}

pub(crate) proof fn lemma_timers_journaled(w: World, fired: Seq<TimerFired>, script: Seq<Reply>)
    ensures
        sound(w, timers_journaled(w, fired, script).1),
{
    lemma_sound_refl(w);
    let (answer, w1) = batch_appended(w, timer_batch(fired), script);
    lemma_batch_appended(w, timer_batch(fired), script);
    if let Ok(ids) = answer {
        lemma_all_fired(w1, fired, ids, paired(fired, ids), script);
    }
}

pub(crate) proof fn lemma_quiesced(w: World, script: Seq<Reply>)
    ensures
        sound(w, quiesced(w, script).1),
{
    let (reply, w1) = told(w, Ask::NextDeadline, script);
    lemma_idle(w, Ask::NextDeadline, script);
    match sooner(reply->Deadline_0, earliest(w1.net.queue)) {
        None => {
            lemma_woken(w1, script);
        },
        Some(target) => {
            let (now, w2) = told(w1, Ask::Now, script);
            lemma_idle(w1, Ask::Now, script);
            lemma_idle(w2, Ask::AdvanceToFiring { time: target }, script);
            lemma_idle(w2, Ask::AdvanceFiring, script);
            let (fired, w3) = timers_fired(w1, target, script);
            assert(sound(w2, w3));
            lemma_timers_journaled(w3, fired, script);
            let (answer, w4) = timers_journaled(w3, fired, script);
            lemma_woken(w4, script);
        },
    }
}

pub(crate) proof fn lemma_delivery_awaited(w: World, script: Seq<Reply>)
    ensures
        sound(w, delivery_awaited(w, script).1),
{
    lemma_sound_refl(w);
    if let Some(time) = earliest(w.net.queue) {
        lemma_idle(w, Ask::Now, script);
        let (reply, w1) = told(w, Ask::Now, script);
        lemma_idle(w1, Ask::AdvanceTo { time }, script);
        lemma_woken(told(w1, Ask::AdvanceTo { time }, script).1, script);
    }
}

pub(crate) proof fn lemma_work_found(w: World, script: Seq<Reply>)
    ensures
        sound(w, work_found(w, script).1),
{
    lemma_woken(w, script);
    let w1 = woken(w, script).1;
    lemma_quiesced(w1, script);
    let w2 = quiesced(w1, script).1;
    lemma_delivery_awaited(w2, script);
}

pub(crate) proof fn lemma_task_chosen(w: World, step: usize, script: Seq<Reply>)
    ensures
        sound(w, task_chosen(w, step, script).1),
{
    let ask = Ask::ChooseReady { ready: w.ready, step };
    let (reply, w1) = told(w, ask, script);
    lemma_idle(w, ask, script);
    if let Ok(choice) = reply->Choice_0 {
        let (answer, w2) = appended(w1, choice_draft(choice), script);
        lemma_appended(w1, choice_draft(choice), script);
        lemma_sound_aside(w2, World { ready: swapped_out(w2.ready, choice as int), ..w2 });
    }
}

pub(crate) proof fn lemma_turn_taken(w: World, step: usize, script: Seq<Reply>)
    ensures
        sound(w, turn_taken(w, step, script).1),
{
    reveal(turn_taken);
    lemma_work_found(w, script);
    let (found, w1) = work_found(w, script);
    lemma_task_chosen(w1, step, script);
}

pub(crate) proof fn lemma_step_begun(w: World, script: Seq<Reply>)
    ensures
        sound(w, step_begun(w, script).1),
{
    lemma_idle(w, Ask::HasMonitor, script);
    let w1 = told(w, Ask::HasMonitor, script).1;
    lemma_idle(w1, Ask::JournalLen, script);
}

pub(crate) proof fn lemma_step_ended(w: World, start: Option<usize>, script: Seq<Reply>)
    ensures
        sound(w, step_ended(w, start, script).1),
{
    lemma_sound_refl(w);
    let w1 = match start {
        None => w,
        Some(from) => {
            lemma_idle(w, Ask::MonitorStep { start: from }, script);
            told(w, Ask::MonitorStep { start: from }, script).1
        },
    };
    assert(sound(w, w1));
    lemma_idle(w1, Ask::TraceActive, script);
    let w2 = told(w1, Ask::TraceActive, script).1;
    lemma_idle(w2, Ask::JournalLen, script);
    let (len, w3) = told(w2, Ask::JournalLen, script);
    lemma_idle(w3, Ask::NoteStep { journal_len: len->Count_0 }, script);
}

proof fn lemma_round_done(state: RunState, programs: Seq<Seq<Instruction>>, script: Seq<Reply>)
    ensures
        sound(state.world, round_done(state, programs, script).1.world),
{
    let (start, w1) = step_begun(state.world, script);
    lemma_step_begun(state.world, script);
    let (turn, w2) = turn_taken(w1, state.steps as usize, script);
    lemma_turn_taken(w1, state.steps as usize, script);
    if let Ok(Turn::Poll { task, runnable }) = turn {
        let after = RunState { world: w2, ..state };
        let next = polled(after, programs, task, runnable, script);
        lemma_sound_refl(w2);
        if runnable {
            let (program, at) = (programs[task as int], state.places[task as int]);
            lemma_program_polled(w2, task, program, at, script);
            let (ended, place, w3) = program_polled(w2, task, program, at, script);
            lemma_sound_aside(w3, poll_noted(w3, task, ended));
        }
        assert(sound(w2, next.world));
        lemma_step_ended(next.world, start, script);
    }
}

pub(crate) proof fn lemma_rounds_done(
    state: RunState,
    programs: Seq<Seq<Instruction>>,
    budget: usize,
    rounds: nat,
    script: Seq<Reply>,
)
    ensures
        sound(state.world, rounds_done(state, programs, budget, rounds, script).1.world),
    decreases rounds,
{
    lemma_sound_refl(state.world);
    if state.steps < budget && rounds > 0 {
        lemma_round_done(state, programs, script);
        let (answer, next) = round_done(state, programs, script);
        if answer == Ok::<Option<RunOutcome>, RuntimeError>(None) {
            lemma_rounds_done(next, programs, budget, (rounds - 1) as nat, script);
        }
    }
}

pub(crate) proof fn lemma_run_ended(
    w: World,
    outcome: RunOutcome,
    steps: usize,
    monitor: bool,
    protection: BeltStatus,
    script: Seq<Reply>,
)
    ensures
        sound(w, run_ended(w, outcome, steps, monitor, protection, script).1),
        run_ended(w, outcome, steps, monitor, protection, script).1.tasks == w.tasks,
        run_ended(w, outcome, steps, monitor, protection, script).1.ready == w.ready,
{
    lemma_idle(w, Ask::Decisions, script);
    let (reply, w1) = told(w, Ask::Decisions, script);
    let ask = Ask::CheckTrailing { consumed: reply->Positions_0.len() as usize };
    lemma_idle(w1, ask, script);
    let (left, w2) = told(w1, ask, script);
    lemma_sound_refl(w2);
    lemma_idle(w2, Ask::Audit, script);
    let (found, w3) = told(w2, Ask::Audit, script);
    lemma_idle(w3, Ask::CheckCoverage { entries: coverage_of(w3.coverage) }, script);
}

pub(crate) proof fn lemma_begun(w: World, script: Seq<Reply>)
    ensures
        sound(w, begun(w, script).1),
{
    lemma_roots_journaled(w, w.tasks.len(), script);
    let w1 = roots_journaled(w, w.tasks.len(), script).1;
    lemma_step_begun(w1, script);
    let w2 = step_begun(w1, script).1;
    lemma_idle(w2, Ask::MonitorStep { start: 0 }, script);
}

/// Every run keeps the books, whatever the world answers: coverage counts match
/// the journaled entries, every draw takes the next offset of its stream, the
/// crash classes stay within their budget, the first journal error stays, and
/// no configured value changes.
pub proof fn law_run_keeps_the_books(
    w: World,
    programs: Seq<Seq<Instruction>>,
    budget: usize,
    audits: bool,
    protection: Protection,
    script: Seq<Reply>,
)
    ensures
        sound(w, ran(w, programs, budget, audits, protection, script).1),
        booked(w) ==> booked(ran(w, programs, budget, audits, protection, script).1),
{
    lemma_sound_refl(w);
    if let Ok(status) = started(protection, budget) {
        lemma_begun(w, script);
        let (first, w1) = begun(w, script);
        match first {
            Err(_) => {},
            Ok(Some(reason)) => {
                lemma_run_ended(
                    w1,
                    RunOutcome::MonitorHalt(reason),
                    0,
                    audits,
                    status,
                    script,
                );
            },
            Ok(None) => {
                let state = first_state(w1, programs);
                lemma_rounds_done(state, programs, budget, u64::MAX as nat, script);
                let (answer, end) = rounds_done(
                    state,
                    programs,
                    budget,
                    u64::MAX as nat,
                    script,
                );
                if let Ok(outcome) = answer {
                    lemma_run_ended(
                        end.world,
                        outcome,
                        end.steps as usize,
                        audits,
                        status,
                        script,
                    );
                }
            },
        }
    }
    reveal(sound);
}

/// A run in a world that was never asked begins with balanced books.
pub proof fn law_first_books_balance(
    config: RunModel,
    limits: Limits,
    replay: Seq<usize>,
    fallback: Policy,
    strict: bool,
    roots: nat,
    script: Seq<Reply>,
)
    ensures
        booked(first_world(config, limits, roots, Seq::empty())),
        booked(opened(config, limits, replay, fallback, strict, roots, Seq::empty(), script)),
{
    let w = first_world(config, limits, roots, Seq::empty());
    assert forall|actor: u32| #[trigger]
        count_of(w.coverage, actor) == wrapped(entries_in(w.log, actor)) by {
        assert(entries_in(w.log, actor) == 0);
    }
    let ask = Ask::OpenScheduler {
        seed: config.seed,
        policy: config.policy,
        replay,
        fallback,
        strict,
    };
    lemma_idle(w, ask, script);
    let w1 = told(w, ask, script).1;
    lemma_idle(
        w1,
        Ask::FsOpen {
            extent: match config.max_file_extent {
                Some(extent) => extent,
                None => limits.max_file_extent,
            },
            resident: config.max_resident_bytes,
            mode: config.fs_journaling,
        },
        script,
    );
    reveal(sound);
}

/// A run that recorded an append failure yields no result, and a run that
/// yields one ends without a recorded failure.
pub proof fn law_poisoned_run_is_rejected(
    w: World,
    programs: Seq<Seq<Instruction>>,
    budget: usize,
    audits: bool,
    protection: Protection,
    script: Seq<Reply>,
)
    ensures
        w.journal_error is Some ==> ran(w, programs, budget, audits, protection, script).0 is Err,
        ran(w, programs, budget, audits, protection, script).0 is Ok ==> ran(
            w,
            programs,
            budget,
            audits,
            protection,
            script,
        ).1.journal_error is None,
{
    law_run_keeps_the_books(w, programs, budget, audits, protection, script);
    reveal(sound);
}

/// The same questions answered alike give the same run: the same result, the
/// same questions in the same order and the same final state.
pub proof fn law_same_answers_same_run(
    w: World,
    programs: Seq<Seq<Instruction>>,
    budget: usize,
    audits: bool,
    protection: Protection,
    script: Seq<Reply>,
    first: (Result<RunReport, RuntimeError>, World),
    second: (Result<RunReport, RuntimeError>, World),
)
    requires
        forall|s: Seq<Reply>|
            follows(s, first.1.log) ==> #[trigger] ran(w, programs, budget, audits, protection, s)
                == first,
        forall|s: Seq<Reply>|
            follows(s, second.1.log) ==> #[trigger] ran(w, programs, budget, audits, protection, s)
                == second,
        follows(script, first.1.log),
        follows(script, second.1.log),
    ensures
        first == second,
{
    assert(ran(w, programs, budget, audits, protection, script) == first);
}

/// A whole simulation, from its configuration to its end, in a world with the
/// given past.
pub open spec fn full_run(
    config: RunModel,
    limits: Limits,
    replay: Seq<usize>,
    fallback: Policy,
    strict: bool,
    programs: Seq<Seq<Instruction>>,
    protection: Protection,
    past: Seq<(Ask, Reply)>,
    script: Seq<Reply>,
) -> (Result<RunReport, RuntimeError>, World) {
    let w = opened(config, limits, replay, fallback, strict, programs.len(), past, script);
    ran(w, programs, config.max_steps, config.monitor, protection, script)
}

/// Simulations of the same programs with the same configuration and protection,
/// whose worlds have the same past and answer alike, are the same: the same
/// result, the same questions in the same order, so the same journal, and the
/// same final state.
pub proof fn law_same_configuration_same_run(
    config: RunModel,
    limits: Limits,
    replay: Seq<usize>,
    fallback: Policy,
    strict: bool,
    programs: Seq<Seq<Instruction>>,
    protection: Protection,
    past: Seq<(Ask, Reply)>,
    script: Seq<Reply>,
    first: (Result<RunReport, RuntimeError>, World),
    second: (Result<RunReport, RuntimeError>, World),
)
    requires
        forall|s: Seq<Reply>|
            follows(s, first.1.log) ==> #[trigger] full_run(
                config,
                limits,
                replay,
                fallback,
                strict,
                programs,
                protection,
                past,
                s,
            ) == first,
        forall|s: Seq<Reply>|
            follows(s, second.1.log) ==> #[trigger] full_run(
                config,
                limits,
                replay,
                fallback,
                strict,
                programs,
                protection,
                past,
                s,
            ) == second,
        follows(script, first.1.log),
        follows(script, second.1.log),
    ensures
        first == second,
{
    assert(full_run(config, limits, replay, fallback, strict, programs, protection, past, script)
        == first);
}

/// A budget of `0` ends an admitted run at once with its limit: no work runs and
/// the world is asked nothing.
pub proof fn law_empty_budget_runs_nothing(
    w: World,
    programs: Seq<Seq<Instruction>>,
    audits: bool,
    protection: Protection,
    script: Seq<Reply>,
)
    requires
        admitted(protection) is Ok,
    ensures
        ran(w, programs, 0, audits, protection, script) == (
            Err::<RunReport, _>(RuntimeError::StepLimit { limit: 0 }),
            w,
        ),
{
}

/// A run that requires protection starts only with the belt in force; another
/// run starts in any case.
pub proof fn law_required_protection(protection: Protection)
    ensures
        protection.mode != ProtectionMode::Required ==> admitted(protection) is Ok,
        admitted(protection) is Ok && protection.mode == ProtectionMode::Required ==> (
        protection.status is Active && protection.trap_error is None),
        admitted(protection) matches Ok(status) ==> status == protection.status,
{
}

/// The rounds end as their outcome says.
pub open spec fn truthful(outcome: RunOutcome, state: RunState, budget: usize) -> bool {
    match outcome {
        RunOutcome::Completed => all_done(state.world.tasks),
        RunOutcome::BudgetExhausted => state.steps >= budget,
        RunOutcome::Blocked => state.world.ready.len() == 0 && !all_done(state.world.tasks),
        RunOutcome::MonitorHalt(_) => true,
    }
}

proof fn lemma_round_truthful(
    state: RunState,
    programs: Seq<Seq<Instruction>>,
    budget: usize,
    script: Seq<Reply>,
)
    requires
        state.steps < budget,
    ensures
        round_done(state, programs, script).0 matches Ok(Some(outcome)) ==> truthful(
            outcome,
            round_done(state, programs, script).1,
            budget,
        ),
        round_done(state, programs, script).1.steps <= budget,
        state.steps <= round_done(state, programs, script).1.steps <= state.steps + 1,
{
    reveal(turn_taken);
    let (start, w1) = step_begun(state.world, script);
    let (found, w2) = work_found(w1, script);
    assert(found matches Ok(Some(outcome)) ==> truthful(
        outcome,
        RunState { world: w2, ..state },
        budget,
    )) by {
        lemma_work_truthful(w1, script);
    }
}

proof fn lemma_work_truthful(w: World, script: Seq<Reply>)
    ensures
        work_found(w, script).0 matches Ok(Some(outcome)) ==> (outcome is Completed && all_done(
            work_found(w, script).1.tasks,
        )) || (outcome is Blocked && work_found(w, script).1.ready.len() == 0 && !all_done(
            work_found(w, script).1.tasks,
        )),
{
    let w1 = woken(w, script).1;
    let w2 = quiesced(w1, script).1;
    let (third, w3) = delivery_awaited(w2, script);
    if third is Ok && w3.ready.len() == 0 && !all_done(w2.tasks) && w2.ready.len() == 0 {
        lemma_nothing_woken(w2, script);
    }
}

/// Waiting for a delivery that wakes nobody changes no task.
proof fn lemma_nothing_woken(w: World, script: Seq<Reply>)
    requires
        w.ready.len() == 0,
        delivery_awaited(w, script).0 is Ok,
        delivery_awaited(w, script).1.ready.len() == 0,
    ensures
        delivery_awaited(w, script).1.tasks == w.tasks,
{
    if let Some(time) = earliest(w.net.queue) {
        let (reply, w1) = told(w, Ask::Now, script);
        if time > reply->Ticks_0 {
            let w2 = told(w1, Ask::AdvanceTo { time }, script).1;
            let (now, w3) = told(w2, Ask::Now, script);
            let list = wake_list(w3.tasks, w3.net, now->Ticks_0);
            lemma_ready_grows(w3, list, now->Ticks_0, script);
        }
    }
}

proof fn lemma_ready_grows(w: World, list: Seq<usize>, now: u64, script: Seq<Reply>)
    requires
        all_woken(w, list, now, script).0 is Ok,
    ensures
        all_woken(w, list, now, script).1.ready.len() == w.ready.len() + list.len(),
        list.len() == 0 ==> all_woken(w, list, now, script).1 == w,
    decreases list.len(),
{
    if list.len() > 0 {
        lemma_ready_grows(w, list.drop_last(), now, script);
    }
}

proof fn lemma_rounds_truthful(
    state: RunState,
    programs: Seq<Seq<Instruction>>,
    budget: usize,
    rounds: nat,
    script: Seq<Reply>,
)
    requires
        state.steps <= budget,
    ensures
        rounds_done(state, programs, budget, rounds, script).0 matches Ok(outcome) ==> truthful(
            outcome,
            rounds_done(state, programs, budget, rounds, script).1,
            budget,
        ),
        rounds_done(state, programs, budget, rounds, script).1.steps <= budget,
    decreases rounds,
{
    if state.steps < budget && rounds > 0 {
        lemma_round_truthful(state, programs, budget, script);
        let (answer, next) = round_done(state, programs, script);
        if answer == Ok::<Option<RunOutcome>, RuntimeError>(None) {
            lemma_rounds_truthful(next, programs, budget, (rounds - 1) as nat, script);
        }
    }
}

/// The outcome of a run tells the truth. A completed run finished every task, a
/// blocked run has unfinished tasks and none of them ready, an exhausted run
/// used up its budget without finishing, and no run exceeds its budget.
pub proof fn law_outcomes_tell_the_truth(
    w: World,
    programs: Seq<Seq<Instruction>>,
    budget: usize,
    audits: bool,
    protection: Protection,
    script: Seq<Reply>,
)
    ensures
        ran(w, programs, budget, audits, protection, script).0 matches Ok(report) ==> {
            let end = ran(w, programs, budget, audits, protection, script).1;
            &&& report.steps <= budget
            &&& report.registers == registers_of(end.tasks)
            &&& report.outcome is Completed ==> all_done(end.tasks)
            &&& report.outcome is BudgetExhausted ==> report.steps == budget && !all_done(end.tasks)
            &&& report.outcome is Blocked ==> end.ready.len() == 0 && !all_done(end.tasks)
        },
{
    if let Ok(status) = started(protection, budget) {
        let (first, w1) = begun(w, script);
        match first {
            Err(_) => {},
            Ok(Some(reason)) => {
                lemma_run_ended(
                    w1,
                    RunOutcome::MonitorHalt(reason),
                    0,
                    audits,
                    status,
                    script,
                );
            },
            Ok(None) => {
                let state = first_state(w1, programs);
                lemma_rounds_truthful(state, programs, budget, u64::MAX as nat, script);
                let (answer, end) = rounds_done(
                    state,
                    programs,
                    budget,
                    u64::MAX as nat,
                    script,
                );
                if let Ok(outcome) = answer {
                    lemma_run_ended(
                        end.world,
                        outcome,
                        end.steps as usize,
                        audits,
                        status,
                        script,
                    );
                }
            },
        }
    }
}

/// Each poll executes at most one instruction, and goes back to none.
pub proof fn law_poll_executes_one_instruction(
    w: World,
    task: usize,
    program: Seq<Instruction>,
    at: nat,
    script: Seq<Reply>,
)
    ensures
        at <= program_polled(w, task, program, at, script).1 <= at + 1,
        at >= program.len() ==> program_polled(w, task, program, at, script) == (true, at, w),
{
    reveal(program_polled);
}

} // verus!
