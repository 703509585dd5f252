//! The scheduling loop of the deterministic executor.
//!
//! One scheduling decision per step is journaled; blocking effects park until
//! a timer or message wakes them.

use crate::bytes::le;
use crate::host::{Ask, MonitorIssue, ReplayViolation, Reply, TimerFired};
use crate::ids::{ActorId, EntryHash, MessageId, StreamId};
use crate::journal::{draft, Draft, EntryKind, JournalError, Payload, WakePayload};
use crate::model::{actor_of, appended, counted, notified, told, BlockedOn, TaskEntry, World};
use crate::net::{earliest, first_ready, peeked, NetState};
use crate::origin::OriginSource;
use crate::runtime::{HaltReason, OnlineAction, RunOutcome, SCHED_ACTOR, SCHED_STREAM};
use crate::sentinel::BeltStatus;
use vstd::prelude::*;

verus! {

broadcast use {crate::host::lemma_extends, crate::host::lemma_follows};

/// Why a run was rejected.
#[derive(Debug, PartialEq, Eq)]
pub enum RuntimeError {
    /// Journal invariant failed.
    Journal(JournalError),
    /// The budget admits no instruction, or the run took more scheduling rounds
    /// than are counted.
    StepLimit {
        /// Instruction budget of the run.
        limit: usize,
    },
    /// Strict replay rejected a decision or trailing leftover.
    StrictReplay(ReplayViolation),
    /// Belt activation failed or the belt is not active while required.
    Belt(BeltStatus),
    /// A timer fired for a task that does not exist.
    UnknownTask {
        /// The task.
        task: usize,
    },
    /// The scheduler chose a position outside the ready list.
    UnknownChoice {
        /// The choice.
        choice: usize,
        /// Length of the ready list.
        ready: usize,
    },
    /// The scheduler's trace does not fit the run that it belongs to.
    BrokenTrace {
        /// Position in the trace.
        position: usize,
    },
}

/// A failed append as a rejected run.
pub open spec fn failed<T>(error: JournalError) -> Result<T, RuntimeError> {
    Err(RuntimeError::Journal(error))
}

/// The entry that creates a root task.
pub open spec fn spawn_draft(task: usize) -> Draft {
    draft(actor_of(task), Seq::empty(), Payload::Spawn { child_actor: actor_of(task) })
}

/// Journal the creation of the first `n` root tasks.
pub open spec fn roots_journaled(w: World, n: nat, script: Seq<Reply>) -> (
    Result<(), RuntimeError>,
    World,
)
    decreases n,
{
    if n == 0 {
        (Ok(()), w)
    } else {
        let (before, w1) = roots_journaled(w, (n - 1) as nat, script);
        if before is Err {
            (before, w1)
        } else {
            let (answer, w2) = appended(w1, spawn_draft((n - 1) as usize), script);
            match answer {
                Ok(_) => (Ok(()), w2),
                Err(e) => (failed(e), w2),
            }
        }
    }
}

/// Tasks that wait for a message and have one ready, in order.
pub open spec fn wake_list(tasks: Seq<TaskEntry>, net: NetState, now: u64) -> Seq<usize>
    decreases tasks.len(),
{
    if tasks.len() == 0 {
        Seq::empty()
    } else {
        let front = wake_list(tasks.drop_last(), net, now);
        let task = (tasks.len() - 1) as usize;
        if tasks.last().blocked_on == Some(BlockedOn::Message) && first_ready(
            net.queue,
            task,
            now,
        ) is Some {
            front.push(task)
        } else {
            front
        }
    }
}

/// A list of at most one entry.
pub open spec fn at_most_one(id: Option<EntryHash>) -> Seq<EntryHash> {
    match id {
        Some(h) => seq![h],
        None => Seq::empty(),
    }
}

/// The entry that wakes a task for a message: its parent is the send of the
/// message that the task will take.
pub open spec fn wake_draft(net: NetState, task: usize, now: u64) -> Draft {
    draft(
        actor_of(task),
        at_most_one(peeked(net, task, now)),
        Payload::Wake(
            WakePayload::MessageReady {
                message_id: MessageId { actor: actor_of(task), sequence: 0 },
            },
        ),
    )
}

/// The task is runnable again.
pub open spec fn unblocked(w: World, task: usize) -> World {
    World {
        tasks: w.tasks.update(
            task as int,
            TaskEntry { blocked_on: None, ..w.tasks[task as int] },
        ),
        ready: w.ready.push(task),
        ..w
    }
}

/// Wake one task for a message.
pub open spec fn one_woken(w: World, task: usize, now: u64, script: Seq<Reply>) -> (
    Result<(), RuntimeError>,
    World,
) {
    let (answer, w1) = appended(w, wake_draft(w.net, task, now), script);
    match answer {
        Err(e) => (failed(e), w1),
        Ok(id) => (
            Ok(()),
            unblocked(
                notified(w1, actor_of(task), EntryKind::Wake, task, Some(id), script),
                task,
            ),
        ),
    }
}

/// Wake tasks in order, up to the first failure.
pub open spec fn all_woken(w: World, list: Seq<usize>, now: u64, script: Seq<Reply>) -> (
    Result<(), RuntimeError>,
    World,
)
    decreases list.len(),
{
    if list.len() == 0 {
        (Ok(()), w)
    } else {
        let (before, w1) = all_woken(w, list.drop_last(), now, script);
        if before is Err {
            (before, w1)
        } else {
            one_woken(w1, list.last(), now, script)
        }
    }
}

/// Wake tasks parked on a message that became deliverable at the current time.
pub open spec fn woken(w: World, script: Seq<Reply>) -> (Result<(), RuntimeError>, World) {
    let (reply, w1) = told(w, Ask::Now, script);
    let now = reply->Ticks_0;
    all_woken(w1, wake_list(w1.tasks, w1.net, now), now, script)
}

/// The earlier of two times.
pub open spec fn sooner(a: Option<u64>, b: Option<u64>) -> Option<u64> {
    match (a, b) {
        (Some(x), Some(y)) => Some(
            if x <= y {
                x
            } else {
                y
            },
        ),
        (Some(x), None) => Some(x),
        (None, y) => y,
    }
}

/// The two entries of a fired timer: it fires, then wakes its task.
pub open spec fn fired_drafts(timer: TimerFired) -> Seq<Draft> {
    seq![
        draft(
            actor_of(timer.task),
            at_most_one(timer.enabler),
            Payload::TimerFire { timer_id: 0, deadline_ticks: 0 },
        ),
        Draft {
            actor: actor_of(timer.task),
            parents: Seq::empty(),
            chained: true,
            payload: Payload::Wake(WakePayload::TimerReady { timer_id: 0 }),
        },
    ]
}

/// The entries of fired timers.
pub open spec fn timer_batch(fired: Seq<TimerFired>) -> Seq<Draft>
    decreases fired.len(),
{
    if fired.len() == 0 {
        Seq::empty()
    } else {
        timer_batch(fired.drop_last()) + fired_drafts(fired.last())
    }
}

/// Count the entries of a batch.
pub open spec fn batch_counted(w: World, batch: Seq<Draft>) -> World
    decreases batch.len(),
{
    if batch.len() == 0 {
        w
    } else {
        counted(batch_counted(w, batch.drop_last()), batch.last().actor)
    }
}

/// Append a batch and count its entries; nothing is counted on failure.
pub open spec fn batch_appended(w: World, batch: Seq<Draft>, script: Seq<Reply>) -> (
    Result<Seq<EntryHash>, JournalError>,
    World,
) {
    let (reply, w1) = told(w, Ask::AppendBatch { batch }, script);
    let answer = reply->Batch_0;
    (
        answer,
        if answer is Ok {
            batch_counted(w1, batch)
        } else {
            w1
        },
    )
}

/// Release the task of a fired timer.
pub open spec fn one_fired(
    w: World,
    timer: TimerFired,
    fire: EntryHash,
    wake: EntryHash,
    script: Seq<Reply>,
) -> World {
    let actor = actor_of(timer.task);
    let w1 = notified(w, actor, EntryKind::TimerFire, timer.task, Some(fire), script);
    let w2 = notified(w1, actor, EntryKind::Wake, timer.task, Some(wake), script);
    World {
        tasks: w2.tasks.update(
            timer.task as int,
            TaskEntry { blocked_on: None, timer_fired: true, ..w2.tasks[timer.task as int] },
        ),
        ready: w2.ready.push(timer.task),
        ..w2
    }
}

/// Release the tasks of the first `n` fired timers.
pub open spec fn all_fired(
    w: World,
    fired: Seq<TimerFired>,
    ids: Seq<EntryHash>,
    n: nat,
    script: Seq<Reply>,
) -> World
    decreases n,
{
    if n == 0 {
        w
    } else {
        one_fired(
            all_fired(w, fired, ids, (n - 1) as nat, script),
            fired[n - 1],
            ids[2 * (n - 1)],
            ids[2 * (n - 1) + 1],
            script,
        )
    }
}

/// Number of fired timers whose two entries were both appended.
pub open spec fn paired(fired: Seq<TimerFired>, ids: Seq<EntryHash>) -> nat {
    if ids.len() / 2 < fired.len() {
        ids.len() / 2
    } else {
        fired.len()
    }
}

/// The first fired timer of a task that does not exist.
pub open spec fn stray(fired: Seq<TimerFired>, tasks: nat) -> Option<usize>
    decreases fired.len(),
{
    if fired.len() == 0 {
        None
    } else {
        match stray(fired.drop_last(), tasks) {
            Some(task) => Some(task),
            None => if fired.last().task >= tasks {
                Some(fired.last().task)
            } else {
                None
            },
        }
    }
}

/// Journal fired timers and release their tasks.
pub open spec fn timers_journaled(w: World, fired: Seq<TimerFired>, script: Seq<Reply>) -> (
    Result<(), RuntimeError>,
    World,
) {
    match stray(fired, w.tasks.len()) {
        Some(task) => (Err(RuntimeError::UnknownTask { task }), w),
        None => if fired.len() == 0 {
            (Ok(()), w)
        } else {
            let (answer, w1) = batch_appended(w, timer_batch(fired), script);
            match answer {
                Err(e) => (failed(e), w1),
                Ok(ids) => (Ok(()), all_fired(w1, fired, ids, paired(fired, ids), script)),
            }
        },
    }
}

/// Move virtual time to the next event and fire its timers.
pub open spec fn timers_fired(w: World, target: u64, script: Seq<Reply>) -> (
    Seq<TimerFired>,
    World,
) {
    let (reply, w1) = told(w, Ask::Now, script);
    let (answer, w2) = if target > reply->Ticks_0 {
        told(w1, Ask::AdvanceToFiring { time: target }, script)
    } else {
        told(w1, Ask::AdvanceFiring, script)
    };
    (answer->Fired_0, w2)
}

/// At quiescence, move to the next timer or delivery and wake what is due.
pub open spec fn quiesced(w: World, script: Seq<Reply>) -> (Result<(), RuntimeError>, World) {
    let (reply, w1) = told(w, Ask::NextDeadline, script);
    match sooner(reply->Deadline_0, earliest(w1.net.queue)) {
        None => woken(w1, script),
        Some(target) => {
            let (fired, w2) = timers_fired(w1, target, script);
            let (answer, w3) = timers_journaled(w2, fired, script);
            if answer is Err {
                (answer, w3)
            } else {
                woken(w3, script)
            }
        },
    }
}

/// Every task finished.
pub open spec fn all_done(tasks: Seq<TaskEntry>) -> bool {
    forall|i: int| 0 <= i < tasks.len() ==> (#[trigger] tasks[i]).done
}

/// With nothing ready after quiescence, jump to the earliest delivery.
pub open spec fn delivery_awaited(w: World, script: Seq<Reply>) -> (
    Result<(), RuntimeError>,
    World,
) {
    match earliest(w.net.queue) {
        None => (Ok(()), w),
        Some(time) => {
            let (reply, w1) = told(w, Ask::Now, script);
            if time > reply->Ticks_0 {
                woken(told(w1, Ask::AdvanceTo { time }, script).1, script)
            } else {
                (Ok(()), w1)
            }
        },
    }
}

/// Find work: the outcome of the run when there is none left.
pub open spec fn work_found(w: World, script: Seq<Reply>) -> (
    Result<Option<RunOutcome>, RuntimeError>,
    World,
) {
    let (first, w1) = woken(w, script);
    if let Err(e) = first {
        (Err(e), w1)
    } else if w1.ready.len() > 0 {
        (Ok(None), w1)
    } else {
        let (second, w2) = quiesced(w1, script);
        if let Err(e) = second {
            (Err(e), w2)
        } else if w2.ready.len() > 0 {
            (Ok(None), w2)
        } else if all_done(w2.tasks) {
            (Ok(Some(RunOutcome::Completed)), w2)
        } else {
            let (third, w3) = delivery_awaited(w2, script);
            if let Err(e) = third {
                (Err(e), w3)
            } else if w3.ready.len() > 0 {
                (Ok(None), w3)
            } else {
                (Ok(Some(RunOutcome::Blocked)), w3)
            }
        }
    }
}

/// The entry of a scheduling decision.
pub open spec fn choice_draft(choice: usize) -> Draft {
    draft(
        ActorId(SCHED_ACTOR),
        Seq::empty(),
        Payload::RngDraw {
            stream: StreamId(SCHED_STREAM),
            draw_index: 0,
            content: le(choice as nat, 8),
        },
    )
}

/// A list without the member at a position, whose place the last one takes.
pub open spec fn swapped_out(list: Seq<usize>, at: int) -> Seq<usize> {
    list.update(at, list.last()).drop_last()
}

/// Let the scheduler choose a ready task and journal the choice.
pub open spec fn task_chosen(w: World, step: usize, script: Seq<Reply>) -> (
    Result<usize, RuntimeError>,
    World,
) {
    let (reply, w1) = told(w, Ask::ChooseReady { ready: w.ready, step }, script);
    match reply->Choice_0 {
        Err(violation) => (Err(RuntimeError::StrictReplay(violation)), w1),
        Ok(choice) => if choice >= w.ready.len() {
            (
                Err(RuntimeError::UnknownChoice { choice, ready: w.ready.len() as usize }),
                w1,
            )
        } else {
            let (answer, w2) = appended(w1, choice_draft(choice), script);
            match answer {
                Err(e) => (failed(e), w2),
                Ok(_) => (
                    Ok(w2.ready[choice as int]),
                    World { ready: swapped_out(w2.ready, choice as int), ..w2 },
                ),
            }
        },
    }
}

/// What the executor wants done next.
#[derive(Debug, PartialEq, Eq)]
pub enum Turn {
    /// Poll a task.
    Poll {
        /// The task.
        task: usize,
        /// Whether it is runnable: a finished or parked task is passed over.
        runnable: bool,
    },
    /// The run is over.
    Stop(RunOutcome),
}

/// The next turn of a run.
#[verifier::opaque]
pub open spec fn turn_taken(w: World, step: usize, script: Seq<Reply>) -> (
    Result<Turn, RuntimeError>,
    World,
) {
    let (found, w1) = work_found(w, script);
    match found {
        Err(e) => (Err(e), w1),
        Ok(Some(outcome)) => (Ok(Turn::Stop(outcome)), w1),
        Ok(None) => {
            let (chosen, w2) = task_chosen(w1, step, script);
            match chosen {
                Err(e) => (Err(e), w2),
                Ok(task) => (
                    Ok(
                        Turn::Poll {
                            task,
                            runnable: !w2.tasks[task as int].done
                                && w2.tasks[task as int].blocked_on is None,
                        },
                    ),
                    w2,
                ),
            }
        },
    }
}

/// The bookkeeping after a task was polled.
pub open spec fn poll_noted(w: World, task: usize, ended: bool) -> World {
    let entry = w.tasks[task as int];
    if ended {
        World { tasks: w.tasks.update(task as int, TaskEntry { done: true, ..entry }), ..w }
    } else if entry.blocked_on is None && !entry.done {
        World { ready: w.ready.push(task), ..w }
    } else {
        w
    }
}

/// Place in the journal at which a step begins, when a monitor wants to know.
pub open spec fn step_begun(w: World, script: Seq<Reply>) -> (Option<usize>, World) {
    let (reply, w1) = told(w, Ask::HasMonitor, script);
    if reply->Flag_0 {
        let (len, w2) = told(w1, Ask::JournalLen, script);
        (Some(len->Count_0), w2)
    } else {
        (None, w1)
    }
}

/// Show the step to the monitor, then tell a tracing scheduler where the
/// journal stands. A halt ends the run at once.
pub open spec fn step_ended(w: World, start: Option<usize>, script: Seq<Reply>) -> (
    Option<HaltReason>,
    World,
) {
    let (halt, w1) = match start {
        None => (None, w),
        Some(from) => {
            let (reply, w1) = told(w, Ask::MonitorStep { start: from }, script);
            (
                match reply->Action_0 {
                    OnlineAction::Continue => None,
                    OnlineAction::Halt { reason } => Some(reason),
                },
                w1,
            )
        },
    };
    if halt is Some {
        (halt, w1)
    } else {
        let (active, w2) = told(w1, Ask::TraceActive, script);
        if active->Flag_0 {
            let (len, w3) = told(w2, Ask::JournalLen, script);
            (None, told(w3, Ask::NoteStep { journal_len: len->Count_0 }, script).1)
        } else {
            (None, w2)
        }
    }
}

/// Show the root entries to the monitor, if there are any.
pub open spec fn prefix_shown(w: World, script: Seq<Reply>) -> (Option<HaltReason>, World) {
    let (start, w1) = step_begun(w, script);
    match start {
        None => (None, w1),
        Some(len) => if len == 0 {
            (None, w1)
        } else {
            let (reply, w2) = told(w1, Ask::MonitorStep { start: 0 }, script);
            (
                match reply->Action_0 {
                    OnlineAction::Continue => None,
                    OnlineAction::Halt { reason } => Some(reason),
                },
                w2,
            )
        },
    }
}

/// The entry counts with their actors.
pub open spec fn coverage_of(counts: Seq<(u32, u64)>) -> Seq<(ActorId, u64)> {
    counts.map_values(|c: (u32, u64)| (ActorId(c.0), c.1))
}

/// Registers of the tasks.
pub open spec fn registers_of(tasks: Seq<TaskEntry>) -> Seq<u64> {
    tasks.map_values(|t: TaskEntry| t.register)
}

/// Result of a completed deterministic run.
#[derive(Debug)]
pub struct RunResult {
    /// Scheduler decisions by step.
    pub decisions: Vec<usize>,
    /// Final task registers.
    pub registers: Vec<u64>,
    /// Number of executed instructions.
    pub steps: usize,
    /// Whether the run completed, and the liveness reason when it did not.
    pub outcome: RunOutcome,
    /// Defects found by the journal-correctness monitor.
    pub monitor_issues: Vec<MonitorIssue>,
    /// Event ids whose scheduled fault injections took effect.
    pub applied_faults: Vec<EntryHash>,
    /// Effect origins keyed by entry hash, in append order.
    pub origins: Vec<(EntryHash, OriginSource)>,
    /// First append failure on a path that cannot return it. A populated slot
    /// rejects the run, so a result always holds `None`.
    pub journal_error: Option<JournalError>,
    /// Belt protection status for this run.
    pub protection: BeltStatus,
}

/// The mathematical content of a [`RunResult`].
#[verifier::ext_equal]
pub struct RunReport {
    pub decisions: Seq<usize>,
    pub registers: Seq<u64>,
    pub steps: usize,
    pub outcome: RunOutcome,
    pub monitor_issues: Seq<MonitorIssue>,
    pub applied_faults: Seq<EntryHash>,
    pub origins: Seq<(EntryHash, OriginSource)>,
    pub journal_error: Option<JournalError>,
    pub protection: BeltStatus,
}

impl View for RunResult {
    type V = RunReport;

    open spec fn view(&self) -> RunReport {
        RunReport {
            decisions: self.decisions@,
            registers: self.registers@,
            steps: self.steps,
            outcome: self.outcome,
            monitor_issues: self.monitor_issues@,
            applied_faults: self.applied_faults@,
            origins: self.origins@,
            journal_error: self.journal_error,
            protection: self.protection,
        }
    }
}

/// The report of a run, or the error of a rejected one.
pub open spec fn report_of(r: Result<RunResult, RuntimeError>) -> Result<RunReport, RuntimeError> {
    match r {
        Ok(result) => Ok(result@),
        Err(e) => Err(e),
    }
}

/// The last step can complete every task exactly as the budget runs out;
/// completion wins then.
pub open spec fn final_outcome(outcome: RunOutcome, tasks: Seq<TaskEntry>) -> RunOutcome {
    if outcome == RunOutcome::BudgetExhausted && all_done(tasks) {
        RunOutcome::Completed
    } else {
        outcome
    }
}

/// Audit the journal and hold it against the entry counts.
pub open spec fn issues_found(w: World, monitor: bool, script: Seq<Reply>) -> (
    Seq<MonitorIssue>,
    World,
) {
    if monitor {
        let (found, w1) = told(w, Ask::Audit, script);
        let (more, w2) = told(w1, Ask::CheckCoverage { entries: coverage_of(w1.coverage) }, script);
        (found->Issues_0 + more->Issues_0, w2)
    } else {
        (Seq::empty(), w)
    }
}

/// End a run: leftover decisions of a strict replay and a recorded append
/// failure reject it.
pub open spec fn run_ended(
    w: World,
    outcome: RunOutcome,
    steps: usize,
    monitor: bool,
    protection: BeltStatus,
    script: Seq<Reply>,
) -> (Result<RunReport, RuntimeError>, World) {
    let (reply, w1) = told(w, Ask::Decisions, script);
    let decisions = reply->Positions_0;
    let (left, w2) = told(
        w1,
        Ask::CheckTrailing { consumed: decisions.len() as usize },
        script,
    );
    match left->Trailing_0 {
        Some(violation) => (Err(RuntimeError::StrictReplay(violation)), w2),
        None => match w2.journal_error {
            Some(e) => (failed(e), w2),
            None => {
                let (issues, w3) = issues_found(w2, monitor, script);
                (
                    Ok(
                        RunReport {
                            decisions,
                            registers: registers_of(w3.tasks),
                            steps,
                            outcome: final_outcome(outcome, w3.tasks),
                            monitor_issues: issues,
                            applied_faults: w3.applied_faults,
                            origins: w3.origins,
                            journal_error: None,
                            protection,
                        },
                    ),
                    w3,
                )
            },
        },
    }
}

/// Every place in the ready list names a task.
pub open spec fn in_range(w: World) -> bool {
    forall|i: int| 0 <= i < w.ready.len() ==> (#[trigger] w.ready[i]) < w.tasks.len()
}

} // verus!
