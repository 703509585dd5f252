//! The stages of a run: opening, the root entries, the rounds and the end.

use crate::config::{Policy, RunModel};
use crate::deeds::deeds;
use crate::executor::simulation::{
    first_world, opened, played, polled, round_done, rounds_done, Limits, RunState,
};
use crate::host::{Ask, Reply};
use crate::model::World;
use crate::runtime::{Instruction, OnlineAction, RunOutcome};
use crate::schedule::{
    prefix_shown, roots_journaled, step_begun, step_ended, turn_taken, RuntimeError, Turn,
};
use vstd::prelude::*;

verus! {

broadcast use crate::deeds::lemma_deeds;

/// A run opens its scheduler with the seed, the policy and the recorded
/// decisions, and then its storage with the extent that is configured, else with
/// the greatest one, and with the configured bounds and journaling.
pub proof fn law_scheduler_and_storage_are_opened(
    config: RunModel,
    limits: Limits,
    replay: Seq<usize>,
    fallback: Policy,
    strict: bool,
    roots: nat,
    past: Seq<(Ask, Reply)>,
    script: Seq<Reply>,
)
    ensures
        ({
            let w = opened(config, limits, replay, fallback, strict, roots, past, script);
            &&& deeds(w.log) == deeds(past).push(
                Ask::OpenScheduler {
                    seed: config.seed,
                    policy: config.policy,
                    replay,
                    fallback,
                    strict,
                },
            ).push(
                Ask::FsOpen {
                    extent: if config.max_file_extent is Some {
                        config.max_file_extent->Some_0
                    } else {
                        limits.max_file_extent
                    },
                    resident: config.max_resident_bytes,
                    mode: config.fs_journaling,
                },
            )
            &&& w == (World { log: w.log, ..first_world(config, limits, roots, past) })
        }),
{
}

/// A monitor is shown the entries of the root tasks, all of them, if there are
/// any, and its halt keeps the run from its first step. Without a monitor
/// nothing is shown.
pub proof fn law_root_entries_are_shown(w: World, script: Seq<Reply>)
    ensures
        ({
            let n = w.log.len() as int;
            let (halt, after) = prefix_shown(w, script);
            let watched = script[n]->Flag_0;
            let shown = watched && script[n + 1]->Count_0 > 0;
            let asked = deeds(w.log).push(Ask::HasMonitor);
            &&& deeds(after.log) == if shown {
                asked.push(Ask::JournalLen).push(Ask::MonitorStep { start: 0 })
            } else if watched {
                asked.push(Ask::JournalLen)
            } else {
                asked
            }
            &&& halt is Some <==> shown && script[n + 2]->Action_0 is Halt
            &&& halt matches Some(reason) ==> script[n + 2]->Action_0 == (OnlineAction::Halt {
                reason,
            })
            &&& after == (World { log: after.log, ..w })
        }),
{
}

/// A run begins with the entries of all its tasks. A failure there ends it; a
/// monitor that halts there ends it with no step taken.
pub proof fn law_run_begins_with_its_roots(
    w: World,
    programs: Seq<Seq<Instruction>>,
    budget: usize,
    script: Seq<Reply>,
)
    ensures
        ({
            let (roots, w1) = roots_journaled(w, w.tasks.len(), script);
            let (halt, w2) = prefix_shown(w1, script);
            let (answer, after) = played(w, programs, budget, script);
            &&& roots is Err ==> answer is Err && answer->Err_0 == roots->Err_0 && after == w1
            &&& roots is Ok && halt is Some ==> after == w2 && answer == Ok::<
                (RunOutcome, usize),
                RuntimeError,
            >((RunOutcome::MonitorHalt(halt->Some_0), 0usize))
        }),
{
}

/// A round asks for the next turn at the step that the run has reached. A turn
/// that ends the run takes no step and moves no program. A polled turn is shown
/// to the monitor from where the journal stood when the round began, and its
/// halt ends the run with its reason; else the run goes on.
pub proof fn law_round_is_one_turn(
    state: RunState,
    programs: Seq<Seq<Instruction>>,
    script: Seq<Reply>,
)
    ensures
        ({
            let (start, w1) = step_begun(state.world, script);
            let (turn, w2) = turn_taken(w1, state.steps as usize, script);
            let (answer, after) = round_done(state, programs, script);
            match turn {
                Err(e) => answer == Err::<Option<RunOutcome>, RuntimeError>(e),
                Ok(Turn::Stop(outcome)) => {
                    &&& answer == Ok::<Option<RunOutcome>, RuntimeError>(Some(outcome))
                    &&& after.world == w2
                    &&& after.steps == state.steps && after.places == state.places
                },
                Ok(Turn::Poll { task, runnable }) => {
                    let next = polled(
                        RunState { world: w2, ..state },
                        programs,
                        task,
                        runnable,
                        script,
                    );
                    let (halt, w3) = step_ended(next.world, start, script);
                    &&& after.world == w3
                    &&& after.steps == next.steps && after.places == next.places
                    &&& answer is Ok
                    &&& answer->Ok_0 is None <==> halt is None
                    &&& halt is Some ==> answer->Ok_0 == Some(
                        RunOutcome::MonitorHalt(halt->Some_0),
                    )
                },
            }
        }),
{
}

proof fn lemma_round_steps(
    state: RunState,
    programs: Seq<Seq<Instruction>>,
    script: Seq<Reply>,
)
    ensures
        state.steps <= round_done(state, programs, script).1.steps <= state.steps + 1,
{
}

/// A run takes no more steps than its budget. It is told that the budget is
/// spent exactly when it took that many, before a turn ended it.
pub proof fn law_budget_bounds_the_steps(
    state: RunState,
    programs: Seq<Seq<Instruction>>,
    budget: usize,
    rounds: nat,
    script: Seq<Reply>,
)
    requires
        state.steps <= budget,
    ensures
        ({
            let (answer, end) = rounds_done(state, programs, budget, rounds, script);
            &&& state.steps <= end.steps <= budget
            &&& state.steps == budget ==> answer == Ok::<RunOutcome, RuntimeError>(
                RunOutcome::BudgetExhausted,
            ) && end == state
            &&& state.steps < budget && rounds > 0 ==> {
                let (turn, next) = round_done(state, programs, script);
                match turn {
                    Err(e) => answer == Err::<RunOutcome, RuntimeError>(e) && end == next,
                    Ok(Some(outcome)) => answer == Ok::<RunOutcome, RuntimeError>(outcome) && end
                        == next,
                    Ok(None) => (answer, end) == rounds_done(
                        next,
                        programs,
                        budget,
                        (rounds - 1) as nat,
                        script,
                    ),
                }
            }
        }),
    decreases rounds,
{
    if state.steps < budget && rounds > 0 {
        lemma_round_steps(state, programs, script);
        let (turn, next) = round_done(state, programs, script);
        if turn == Ok::<Option<RunOutcome>, RuntimeError>(None) {
            law_budget_bounds_the_steps(next, programs, budget, (rounds - 1) as nat, script);
        }
    }
}

} // verus!
