//! What every effect of the executor does, step by step.
//!
//! Each function here describes one operation as a function of the state before
//! it and of a script: the answers that the outside world gives, by position
//! in the log of questions. The executable operations are proved to do exactly
//! this, whatever the world answers.

use crate::bytes::{le, le_value};
use crate::config::{
    crash_of, Crash, JournalingMode, SimFault, SwarmConfig,
};
use crate::digest::blake3_digest;
use crate::host::{Ask, Reply, SeedStream};
use crate::ids::{ActorId, EntryHash, MessageId, StreamId};
use crate::journal::{
    draft, kind_of, Canonical, Draft, EntryKind, FaultModel, JournalError, Payload, PayloadFault,
};
use crate::net::{
    draws_of, due, next_window, policy_of, received, recv_bound, scalar, sent, sent_via_link,
    served, served_drawn, tick_sum, toggled, Envelope, NetError, NetState, QueueFullPolicy,
};
use crate::origin::{origin_of, recorded, OriginSource};
use crate::probability::chance_hit;
use crate::stream::{next_count, next_word, stream_label, stream_slot, StreamState};
use vstd::prelude::*;

verus! {

/// Why a task is currently parked.
#[derive(Debug, Clone, Copy, PartialEq, Eq, Structural)]
pub enum BlockedOn {
    /// Until its timer fires.
    Timer,
    /// Until a message is deliverable.
    Message,
}

/// One running or parked task in the executor.
#[derive(Debug, Clone, Copy, PartialEq, Eq, Structural)]
pub struct TaskEntry {
    /// Why the task is parked, or `None` when runnable.
    pub blocked_on: Option<BlockedOn>,
    /// Whether the task finished.
    pub done: bool,
    /// Task-local register.
    pub register: u64,
    /// Set when the task's most recent sleep timer fired.
    pub timer_fired: bool,
}

/// A task that has not run yet.
pub open spec fn fresh_task() -> TaskEntry {
    TaskEntry { blocked_on: None, done: false, register: 0, timer_fired: false }
}

/// Outcome of a swarm network policy decision.
#[derive(Debug, Clone, Copy, PartialEq, Eq, Structural)]
pub enum SwarmAction {
    /// Deliver the message.
    Deliver,
    /// Delay delivery by the given tick count.
    Delay(u64),
    /// Drop the message; a fault was already journaled.
    Drop,
}

/// Send outcome from the checked network path.
///
/// `Queued` carries the bool send result; `QueueFull` means a bounded
/// link refused the message before any draw.
#[derive(Debug, Clone, Copy, PartialEq, Eq, Structural)]
pub enum SendOutcome {
    /// Handed to the network, and whether it took the message.
    Queued(bool),
    /// Refused by a full link.
    QueueFull,
}

/// State shared by the tasks of a run, with the log of questions to the world.
#[verifier::ext_equal]
pub struct World {
    pub log: Seq<(Ask, Reply)>,
    pub net: NetState,
    pub dns: Seq<(Seq<char>, usize)>,
    pub tasks: Seq<TaskEntry>,
    pub ready: Seq<usize>,
    pub dropped_events: Seq<EntryHash>,
    pub swarm: SwarmConfig,
    pub net_offset: u64,
    pub fs_offset: u64,
    pub reorder_draw: bool,
    pub message_limit: u64,
    pub send_seq: Seq<u64>,
    pub coverage: Seq<(u32, u64)>,
    pub fault_classes_used: Seq<u64>,
    pub applied_faults: Seq<EntryHash>,
    pub origins: Seq<(EntryHash, OriginSource)>,
    pub fault_schedule: Seq<SimFault>,
    pub fs_journaling: Option<JournalingMode>,
    pub journal_error: Option<JournalError>,
    pub streams: Seq<StreamState>,
}

/// No task and no place in the ready list changed.
pub open spec fn same_tasks(before: World, after: World) -> bool {
    before.tasks == after.tasks && before.ready == after.ready
}

/// Ask the world a question: the script holds the answer.
pub open spec fn told(w: World, ask: Ask, script: Seq<Reply>) -> (Reply, World) {
    let reply = script[w.log.len() as int];
    (reply, World { log: w.log.push((ask, reply)), ..w })
}

/// The actor of a task.
pub open spec fn actor_of(task: usize) -> ActorId {
    ActorId(task as u32)
}

/// Entry counts with one more entry of an actor. The counts stay ordered by
/// actor.
pub open spec fn bumped(counts: Seq<(u32, u64)>, actor: u32) -> Seq<(u32, u64)>
    decreases counts.len(),
{
    if counts.len() == 0 {
        seq![(actor, 1u64)]
    } else if counts.last().0 == actor {
        counts.drop_last().push((actor, next_count(counts.last().1)))
    } else if counts.last().0 < actor {
        counts.push((actor, 1u64))
    } else {
        bumped(counts.drop_last(), actor).push(counts.last())
    }
}

/// One more entry of an actor passed the boundary.
pub open spec fn counted(w: World, actor: ActorId) -> World {
    World { coverage: bumped(w.coverage, actor.0), ..w }
}

/// Append an entry and count it.
pub open spec fn appended(w: World, entry: Draft, script: Seq<Reply>) -> (
    Result<EntryHash, JournalError>,
    World,
) {
    let (reply, w1) = told(w, Ask::Append { record: entry }, script);
    let answer = reply->Appended_0;
    (
        answer,
        if answer is Ok {
            counted(w1, entry.actor)
        } else {
            w1
        },
    )
}

/// Signature of a vector clock: the first eight digest bytes of its encoding.
pub open spec fn clock_signature(clock: Seq<u8>) -> u64 {
    le_value(blake3_digest(clock).take(8)) as u64
}

/// Signature of the vector clock of an entry, asked of the journal.
pub open spec fn signed(w: World, id: EntryHash, script: Seq<Reply>) -> (Option<u64>, World) {
    let (reply, w1) = told(w, Ask::EntryClock { id }, script);
    (
        match reply->Bytes_0 {
            Some(clock) => Some(clock_signature(clock)),
            None => None,
        },
        w1,
    )
}

/// Tell a novelty-seeking scheduler of an entry.
pub open spec fn notified(
    w: World,
    actor: ActorId,
    kind: EntryKind,
    task: usize,
    id: Option<EntryHash>,
    script: Seq<Reply>,
) -> World {
    let (reply, w1) = told(w, Ask::NoveltyActive, script);
    if !(reply->Flag_0) {
        w1
    } else {
        let (signature, w2) = match id {
            Some(entry) => signed(w1, entry, script),
            None => (None, w1),
        };
        told(w2, Ask::EntryEmitted { actor, kind, task, signature }, script).1
    }
}

/// Append an entry of a task and tell the scheduler.
pub open spec fn task_appended(
    w: World,
    task: usize,
    parents: Seq<EntryHash>,
    payload: Payload,
    script: Seq<Reply>,
) -> (Result<EntryHash, JournalError>, World) {
    let (answer, w1) = appended(w, draft(actor_of(task), parents, payload), script);
    match answer {
        Ok(id) => (
            answer,
            notified(w1, actor_of(task), kind_of(payload), task, Some(id), script),
        ),
        Err(_) => (answer, w1),
    }
}

/// Keep the first journal error of the run.
pub open spec fn noted(w: World, error: JournalError) -> World {
    if w.journal_error is None {
        World { journal_error: Some(error), ..w }
    } else {
        w
    }
}

/// Append an entry of a task where a failure cannot be returned.
pub open spec fn kept(
    w: World,
    task: usize,
    parents: Seq<EntryHash>,
    payload: Payload,
    script: Seq<Reply>,
) -> (Option<EntryHash>, World) {
    let (answer, w1) = task_appended(w, task, parents, payload, script);
    match answer {
        Ok(id) => (Some(id), w1),
        Err(e) => (None, noted(w1, e)),
    }
}

/// The payload of a dropped message.
pub open spec fn drop_payload(message_id: MessageId) -> Payload {
    Payload::Fault(FaultModel::DropMessage { message_id })
}

/// Draw the next word of the network stream.
pub open spec fn net_drawn(w: World, script: Seq<Reply>) -> (u64, World) {
    let (reply, w1) = told(w, Ask::Draw { stream: SeedStream::Net, offset: w.net_offset }, script);
    (reply->Word_0, World { net_offset: next_count(w.net_offset), ..w1 })
}

/// Draw the next word of the storage stream.
pub open spec fn fs_drawn(w: World, script: Seq<Reply>) -> (u64, World) {
    let (reply, w1) = told(w, Ask::Draw { stream: SeedStream::Fs, offset: w.fs_offset }, script);
    (reply->Word_0, World { fs_offset: next_count(w.fs_offset), ..w1 })
}

/// The delay that a word stands for.
pub open spec fn delay_of(word: u64, max: u64) -> u64 {
    if max == u64::MAX {
        word
    } else {
        (word as nat % (max + 1) as nat) as u64
    }
}

/// Draw a delay in `0 ..= max`.
pub open spec fn delay_drawn(w: World, max: u64, script: Seq<Reply>) -> (u64, World) {
    let (word, w1) = net_drawn(w, script);
    (delay_of(word, max), w1)
}

/// Draw whether a chance of the network stream hits. A chance of zero draws
/// nothing.
pub open spec fn net_chance(w: World, chance: u64, script: Seq<Reply>) -> (bool, World) {
    if chance == 0 {
        (false, w)
    } else {
        let (word, w1) = net_drawn(w, script);
        (chance_hit(chance, word), w1)
    }
}

/// Apply the swarm drop and delay chances to a message.
pub open spec fn swarm_decided(
    w: World,
    task: usize,
    send_id: EntryHash,
    message_id: MessageId,
    script: Seq<Reply>,
) -> (SwarmAction, World) {
    let (dropped, w1) = net_chance(w, w.swarm.drop_probability@, script);
    if dropped {
        (
            SwarmAction::Drop,
            kept(w1, task, seq![send_id], drop_payload(message_id), script).1,
        )
    } else if w.swarm.max_delay_ticks == 0 {
        (SwarmAction::Deliver, w1)
    } else {
        let (delayed, w2) = net_chance(w1, w.swarm.delay_probability@, script);
        if delayed {
            let (delay, w3) = delay_drawn(w2, w.swarm.max_delay_ticks, script);
            (SwarmAction::Delay(delay), w3)
        } else {
            (SwarmAction::Deliver, w2)
        }
    }
}

/// The crash operation that a sampled word selects.
pub open spec fn sampled_crash(word: u64, path: Seq<char>, write_entry: EntryHash) -> Crash {
    if word % 4 == 0 {
        Crash::DropAllUnsynced
    } else if word % 4 == 1 {
        Crash::DropPaths { path }
    } else if word % 4 == 2 {
        Crash::TornWrite { write_entry, persisted_prefix: 4 }
    } else {
        Crash::BitFlip { write_entry, offset: 0, bit: 0 }
    }
}

/// Class of a crash operation, for the budget of classes per run.
pub open spec fn crash_class(operation: Crash) -> u64 {
    match operation {
        Crash::DropAllUnsynced => 0,
        Crash::DropPaths { .. } => 1,
        Crash::TornWrite { .. } => 2,
        Crash::CorruptRange { .. } => 3,
        Crash::BitFlip { .. } => 4,
    }
}

/// A list without repetition, with one more member.
pub open spec fn joined(classes: Seq<u64>, class: u64) -> Seq<u64> {
    if classes.contains(class) {
        classes
    } else {
        classes.push(class)
    }
}

/// Number of crash classes that a run may use.
pub open spec fn class_budget(swarm: SwarmConfig) -> nat {
    if swarm.fault_classes_per_run < 1 {
        1
    } else {
        swarm.fault_classes_per_run as nat
    }
}

/// The payload of a crashed actor.
pub open spec fn crash_payload(task: usize, crash_operation: Crash) -> Payload {
    Payload::Fault(FaultModel::CrashActor { actor: actor_of(task), crash_operation })
}

/// The answer of an append without the entry.
pub open spec fn done(answer: Result<EntryHash, JournalError>) -> Result<(), JournalError> {
    match answer {
        Ok(_) => Ok(()),
        Err(e) => Err(e),
    }
}

/// Maybe crash after a write. A chance of zero draws nothing; the budget of
/// classes gates the crash but not the draws.
pub open spec fn crash_sampled(
    w: World,
    task: usize,
    path: Seq<char>,
    write_id: EntryHash,
    script: Seq<Reply>,
) -> (Result<(), JournalError>, World) {
    let chance = w.swarm.crash_probability@;
    if chance == 0 {
        (Ok(()), w)
    } else {
        let (word, w1) = fs_drawn(w, script);
        if !chance_hit(chance, word) {
            (Ok(()), w1)
        } else {
            let (choice, w2) = fs_drawn(w1, script);
            let operation = sampled_crash(choice, path, write_id);
            if w2.fault_classes_used.len() >= class_budget(w.swarm) {
                (Ok(()), w2)
            } else {
                let w3 = World {
                    fault_classes_used: joined(w2.fault_classes_used, crash_class(operation)),
                    ..w2
                };
                let (reply, w4) = told(w3, Ask::FsApply { operation }, script);
                match reply->Applied_0 {
                    Err(reason) => (
                        Ok(()),
                        noted(
                            w4,
                            JournalError::InvalidPayload(
                                PayloadFault::SwarmCrashRejected { reason },
                            ),
                        ),
                    ),
                    Ok(_) => {
                        let (answer, w5) = task_appended(
                            w4,
                            task,
                            Seq::empty(),
                            crash_payload(task, operation),
                            script,
                        );
                        (done(answer), w5)
                    },
                }
            }
        }
    }
}

/// Crash storage under the configured crash model.
pub open spec fn fs_crashed(w: World, script: Seq<Reply>) -> World {
    told(w, Ask::FsCrash { journaled: w.fs_journaling is Some }, script).1
}

/// The entry that a fault is scheduled for.
pub open spec fn fault_target(fault: SimFault) -> Option<EntryHash> {
    match fault {
        SimFault::Drop(target) => Some(target),
        SimFault::Delay { send, .. } => Some(send),
        SimFault::Duplicate { send } => Some(send),
        SimFault::Crash(target) => Some(target),
        SimFault::Corrupt { write, .. } => Some(write),
        SimFault::CrashState { write, .. } => Some(write),
        SimFault::Partition { .. } => None,
    }
}

/// The first fault scheduled for an entry.
pub open spec fn injection_for(schedule: Seq<SimFault>, id: EntryHash) -> Option<SimFault>
    decreases schedule.len(),
{
    if schedule.len() == 0 {
        None
    } else {
        match injection_for(schedule.drop_last(), id) {
            Some(fault) => Some(fault),
            None => if fault_target(schedule.last()) == Some(id) {
                Some(schedule.last())
            } else {
                None
            },
        }
    }
}

/// Some fault asks for a second transmission of a send.
pub open spec fn duplicates(schedule: Seq<SimFault>, id: EntryHash) -> bool {
    exists|i: int|
        0 <= i < schedule.len() && #[trigger] schedule[i] == (SimFault::Duplicate { send: id })
}

/// The fault scheduled for an entry took effect.
pub open spec fn marked(w: World, id: EntryHash) -> World {
    if w.applied_faults.contains(id) {
        w
    } else {
        World { applied_faults: w.applied_faults.push(id), ..w }
    }
}

/// What a scheduled fault does to a send.
#[derive(Debug, Clone, Copy, PartialEq, Eq, Structural)]
pub enum SendFault {
    /// No fault is scheduled for it.
    Untouched,
    /// The message is dropped.
    Dropped,
    /// The message is delayed by the given tick count.
    Delayed(u64),
}

/// Apply the fault scheduled for a send.
pub open spec fn send_injected(
    w: World,
    task: usize,
    send_id: EntryHash,
    message_id: MessageId,
    script: Seq<Reply>,
) -> (SendFault, World) {
    match injection_for(w.fault_schedule, send_id) {
        Some(SimFault::Drop(_)) => (
            SendFault::Dropped,
            kept(marked(w, send_id), task, seq![send_id], drop_payload(message_id), script).1,
        ),
        Some(SimFault::Delay { ticks, .. }) => (SendFault::Delayed(ticks), marked(w, send_id)),
        _ => (SendFault::Untouched, w),
    }
}

/// Apply a crash operation that the schedule asks for, and journal it.
pub open spec fn crash_applied(
    w: World,
    task: usize,
    operation: Crash,
    corrupt: bool,
    script: Seq<Reply>,
) -> (Result<(), JournalError>, World) {
    let (reply, w1) = told(w, Ask::FsApply { operation }, script);
    match reply->Applied_0 {
        Err(reason) => (
            Err(
                JournalError::InvalidPayload(
                    if corrupt {
                        PayloadFault::CorruptRejected { reason }
                    } else {
                        PayloadFault::CrashStateRejected { reason }
                    },
                ),
            ),
            w1,
        ),
        Ok(_) => {
            let (answer, w2) = task_appended(
                w1,
                task,
                Seq::empty(),
                crash_payload(task, operation),
                script,
            );
            (done(answer), w2)
        },
    }
}

/// Apply the fault scheduled for a completed storage write. A crash state
/// without operator fails before anything happens.
pub open spec fn write_injected(
    w: World,
    task: usize,
    write_id: EntryHash,
    path: Seq<char>,
    script: Seq<Reply>,
) -> (Result<(), JournalError>, World) {
    match injection_for(w.fault_schedule, write_id) {
        Some(SimFault::Crash(_)) => {
            let w1 = fs_crashed(marked(w, write_id), script);
            let (answer, w2) = task_appended(
                w1,
                task,
                Seq::empty(),
                crash_payload(task, Crash::DropAllUnsynced),
                script,
            );
            (done(answer), w2)
        },
        Some(SimFault::Corrupt { write, xor_mask }) => {
            let operation = crash_of(SimFault::Corrupt { write, xor_mask }, path)->Some_0->Ok_0;
            crash_applied(marked(w, write_id), task, operation, true, script)
        },
        Some(SimFault::CrashState { write, state }) => match crash_of(
            SimFault::CrashState { write, state },
            path,
        )->Some_0 {
            Err(identifier) => (
                Err(JournalError::InvalidPayload(PayloadFault::UnknownCrashState { identifier })),
                w,
            ),
            Ok(operation) => crash_applied(marked(w, write_id), task, operation, false, script),
        },
        _ => (Ok(()), w),
    }
}

/// Journal the refusal of a full link: a drop or backpressure.
pub open spec fn refusal_kept(
    w: World,
    task: usize,
    send_id: EntryHash,
    to: usize,
    message_id: MessageId,
    script: Seq<Reply>,
) -> World {
    let payload = match policy_of(w.net, task, to) {
        QueueFullPolicy::Drop => drop_payload(message_id),
        QueueFullPolicy::Block => Payload::Block,
    };
    kept(w, task, seq![send_id], payload, script).1
}

/// The payload of a partitioned link.
pub open spec fn partition_payload(src: usize, dst: usize) -> Payload {
    Payload::Fault(
        FaultModel::Partition { src: actor_of(src), dst: actor_of(dst), enabled: true },
    )
}

/// Journal why the network refused a message: a partition or a loss.
pub open spec fn loss_kept(
    w: World,
    task: usize,
    send_id: EntryHash,
    to: usize,
    message_id: MessageId,
    script: Seq<Reply>,
) -> World {
    let payload = if w.net.partitions.contains((task, to)) {
        partition_payload(task, to)
    } else {
        drop_payload(message_id)
    };
    kept(w, task, seq![send_id], payload, script).1
}

/// Draw below a bound from the network stream.
pub open spec fn net_drawn_below(w: World, bound: Option<u64>, script: Seq<Reply>) -> (u64, World) {
    match bound {
        None => (0, w),
        Some(b) => {
            let (word, w1) = net_drawn(w, script);
            (
                if b == 0 {
                    0
                } else {
                    word % b
                },
                w1,
            )
        },
    }
}

/// The outcome of handing a message to the network.
pub open spec fn outcome_of(answer: Result<bool, NetError>) -> SendOutcome {
    match answer {
        Ok(queued) => SendOutcome::Queued(queued),
        Err(NetError::QueueFull { .. }) => SendOutcome::QueueFull,
        Err(NetError::InvalidReorderWindow { .. }) => SendOutcome::Queued(false),
    }
}

/// Transmit a message once: over a configured link with its draws, else
/// directly. A full link draws nothing.
pub open spec fn transmitted(
    w: World,
    message: Envelope,
    now: u64,
    total_delay: u64,
    script: Seq<Reply>,
) -> (SendOutcome, World) {
    let (from, to) = (message.from, message.to);
    if w.net.links.contains_key((from, to)) {
        let draws = draws_of(w.net, from, to);
        let (jitter, w1) = net_drawn_below(w, draws.0, script);
        let (loss, w2) = net_drawn_below(w1, draws.1, script);
        let (answer, net) = sent_via_link(w.net, message, now, total_delay, jitter, loss);
        (outcome_of(answer), World { net, ..w2 })
    } else {
        let (answer, net) = sent(w.net, due(message, tick_sum(now, total_delay)));
        (outcome_of(answer), World { net, ..w })
    }
}

/// Number of a task's sends so far.
pub open spec fn sends_of(counts: Seq<u64>, task: usize) -> u64 {
    if task < counts.len() {
        counts[task as int]
    } else {
        0
    }
}

/// Send counts that reach up to a task.
pub open spec fn padded(counts: Seq<u64>, task: usize) -> Seq<u64> {
    if task < counts.len() {
        counts
    } else {
        counts + Seq::new((task + 1 - counts.len()) as nat, |i: int| 0u64)
    }
}

/// Take the next message identity of a task.
pub open spec fn identified(w: World, task: usize) -> (MessageId, World) {
    let sequence = sends_of(w.send_seq, task);
    (
        MessageId { actor: actor_of(task), sequence },
        World {
            send_seq: padded(w.send_seq, task).update(task as int, next_count(sequence)),
            ..w
        },
    )
}

/// Record the origin of an entry, if there is one.
pub open spec fn origin_kept(w: World, id: EntryHash, at: Option<OriginSource>) -> World {
    match at {
        Some(source) => World { origins: recorded(w.origins, id, source), ..w },
        None => w,
    }
}

/// What follows the first transmission of a message.
pub open spec fn settled(
    w: World,
    first: SendOutcome,
    message: Envelope,
    now: u64,
    total_delay: u64,
    script: Seq<Reply>,
) -> (bool, World) {
    let (task, to, id, message_id) = (
        message.from,
        message.to,
        message.send_id,
        message.message_id,
    );
    match first {
        SendOutcome::QueueFull => (false, refusal_kept(w, task, id, to, message_id, script)),
        SendOutcome::Queued(delivered) => if duplicates(w.fault_schedule, id) {
            let duplicate = Payload::Fault(
                FaultModel::DuplicateMessage { message_id, copy_ordinal: 1 },
            );
            let w1 = kept(marked(w, id), task, seq![id], duplicate, script).1;
            let (second, w2) = transmitted(w1, message, now, total_delay, script);
            let w3 = if delivered {
                w2
            } else {
                loss_kept(w2, task, id, to, message_id, script)
            };
            match second {
                SendOutcome::Queued(again) => (
                    delivered || again,
                    if again {
                        w3
                    } else {
                        loss_kept(w3, task, id, to, message_id, script)
                    },
                ),
                SendOutcome::QueueFull => (
                    delivered,
                    refusal_kept(w3, task, id, to, message_id, script),
                ),
            }
        } else if delivered {
            (true, w)
        } else {
            (false, loss_kept(w, task, id, to, message_id, script))
        },
    }
}

/// Carry a journaled send to the network: faults first, then the swarm
/// chances, then the transmission.
pub open spec fn carried(
    w: World,
    message: Envelope,
    now: u64,
    base_delay: u64,
    script: Seq<Reply>,
) -> (bool, World) {
    let (task, id, message_id) = (message.from, message.send_id, message.message_id);
    if w.dropped_events.contains(id) {
        (true, kept(w, task, seq![id], drop_payload(message_id), script).1)
    } else {
        let (fault, w1) = send_injected(w, task, id, message_id, script);
        match fault {
            SendFault::Dropped => (true, w1),
            _ => {
                let injected = match fault {
                    SendFault::Delayed(ticks) => ticks,
                    _ => 0,
                };
                let (action, w2) = swarm_decided(w1, task, id, message_id, script);
                match action {
                    SwarmAction::Drop => (true, w2),
                    _ => {
                        let total = match action {
                            SwarmAction::Delay(extra) => tick_sum(
                                tick_sum(base_delay, extra),
                                injected,
                            ),
                            _ => tick_sum(base_delay, injected),
                        };
                        let (first, w3) = transmitted(w2, message, now, total, script);
                        settled(w3, first, message, now, total, script)
                    },
                }
            },
        }
    }
}

/// Send content bytes to a task.
pub open spec fn bytes_sent(
    w: World,
    task: usize,
    to: usize,
    content: Seq<u8>,
    base_delay: u64,
    at: Option<OriginSource>,
    script: Seq<Reply>,
) -> (bool, World) {
    let (reply, w1) = told(w, Ask::Now, script);
    let now = reply->Ticks_0;
    let (message_id, w2) = identified(w1, task);
    if content.len() > w.message_limit {
        let fault = PayloadFault::MessageTooLong {
            length: content.len() as u64,
            limit: w.message_limit,
        };
        (false, noted(w2, JournalError::InvalidPayload(fault)))
    } else {
        let payload = Payload::Send {
            message_id,
            from: actor_of(task),
            to: actor_of(to),
            original_content: content,
        };
        let (answer, w3) = task_appended(w2, task, Seq::empty(), payload, script);
        match answer {
            Err(e) => (false, noted(w3, e)),
            Ok(id) => {
                let message = Envelope {
                    from: task,
                    to,
                    content,
                    send_id: id,
                    message_id,
                    deliver_at: now,
                };
                carried(origin_kept(w3, id, at), message, now, base_delay, script)
            },
        }
    }
}

/// Send a scalar to a task.
pub open spec fn scalar_sent(
    w: World,
    task: usize,
    to: usize,
    payload: u64,
    base_delay: u64,
    at: Option<OriginSource>,
    script: Seq<Reply>,
) -> (bool, World) {
    bytes_sent(w, task, to, le(payload as nat, 8), base_delay, at, script)
}

/// Take one ready message for a task: the newest of the window, or a drawn one.
pub open spec fn delivered(w: World, task: usize, now: u64, script: Seq<Reply>) -> (
    Option<Envelope>,
    World,
) {
    let window = next_window(w.net, task, now);
    if w.reorder_draw {
        let (word, w1) = net_drawn_below(w, recv_bound(w.net, task, now), script);
        let (message, net) = received(
            w.net,
            served_drawn(w.net.queue, task, now, window, word),
        );
        (message, World { net, ..w1 })
    } else {
        let (message, net) = received(w.net, served(w.net.queue, task, now, window));
        (message, World { net, ..w })
    }
}

/// The payload of a received message.
pub open spec fn recv_payload(task: usize, message: Envelope) -> Payload {
    Payload::Recv {
        message_id: message.message_id,
        from: actor_of(message.from),
        to: actor_of(task),
        observed_content: message.content,
    }
}

/// Journal a received message and give the entry the origin of its send.
pub open spec fn recv_kept(w: World, task: usize, message: Envelope, script: Seq<Reply>) -> World {
    let (id, w1) = kept(w, task, seq![message.send_id], recv_payload(task, message), script);
    match id {
        Some(recv_id) => origin_kept(w1, recv_id, origin_of(w1.origins, message.send_id)),
        None => w1,
    }
}

/// Take a message for `task` at `now` on behalf of the boundary of `by`.
pub open spec fn message_taken(
    w: World,
    by: usize,
    task: usize,
    now: u64,
    script: Seq<Reply>,
) -> (Option<Envelope>, World) {
    let (message, w1) = delivered(w, task, now, script);
    match message {
        Some(m) => (message, recv_kept(w1, by, m, script)),
        None => (None, w1),
    }
}

/// Take the first deliverable message of a task now.
pub open spec fn received_now(w: World, task: usize, script: Seq<Reply>) -> (Option<u64>, World) {
    let (reply, w1) = told(w, Ask::Now, script);
    let (message, w2) = message_taken(w1, task, task, reply->Ticks_0, script);
    (
        match message {
            Some(m) => Some(scalar(m.content) as u64),
            None => None,
        },
        w2,
    )
}

/// A task with another park reason.
pub open spec fn parked(w: World, task: usize, reason: BlockedOn) -> World {
    World {
        tasks: w.tasks.update(
            task as int,
            TaskEntry { blocked_on: Some(reason), ..w.tasks[task as int] },
        ),
        ..w
    }
}

/// Poll a waiting receive: the payload, or the task parks.
pub open spec fn receive_polled(w: World, task: usize, script: Seq<Reply>) -> (Option<u64>, World) {
    let (value, w1) = received_now(w, task, script);
    match value {
        Some(_) => (value, w1),
        None => (
            None,
            parked(
                kept(w1, task, Seq::empty(), Payload::Block, script).1,
                task,
                BlockedOn::Message,
            ),
        ),
    }
}

/// The payload of an armed timer.
pub open spec fn timer_payload(ticks: u64) -> Payload {
    Payload::TimerSet { timer_id: 0, deadline_ticks: ticks }
}

/// Park a task on a timer, clearing what an earlier timer left.
pub open spec fn sleep_parked(w: World, task: usize, ticks: u64, script: Seq<Reply>) -> (
    Result<(), JournalError>,
    World,
) {
    let (answer, w1) = task_appended(w, task, Seq::empty(), timer_payload(ticks), script);
    match answer {
        Err(e) => (Err(e), w1),
        Ok(id) => {
            let w2 = told(w1, Ask::SetTimer { ticks, task, enabler: Some(id) }, script).1;
            (
                Ok(()),
                World {
                    tasks: w2.tasks.update(
                        task as int,
                        TaskEntry {
                            blocked_on: Some(BlockedOn::Timer),
                            timer_fired: false,
                            ..w2.tasks[task as int]
                        },
                    ),
                    ..w2
                },
            )
        },
    }
}

/// Begin a sleep that cannot fail: the timer is armed with or without entry.
pub open spec fn sleep_begun(w: World, task: usize, ticks: u64, script: Seq<Reply>) -> World {
    let (id, w1) = kept(w, task, Seq::empty(), timer_payload(ticks), script);
    let w2 = told(w1, Ask::SetTimer { ticks, task, enabler: id }, script).1;
    parked(w2, task, BlockedOn::Timer)
}

/// Poll a sleep: it ends when the timer fired.
pub open spec fn sleep_polled(w: World, task: usize) -> (bool, World) {
    let entry = w.tasks[task as int];
    if entry.timer_fired {
        (
            true,
            World {
                tasks: w.tasks.update(task as int, TaskEntry { timer_fired: false, ..entry }),
                ..w
            },
        )
    } else {
        (false, w)
    }
}

/// Park a task until a message is deliverable.
pub open spec fn message_parked(w: World, task: usize, script: Seq<Reply>) -> (
    Result<(), JournalError>,
    World,
) {
    let (answer, w1) = task_appended(w, task, Seq::empty(), Payload::Block, script);
    match answer {
        Err(e) => (Err(e), w1),
        Ok(_) => (Ok(()), parked(w1, task, BlockedOn::Message)),
    }
}

/// Read virtual time and journal the read.
pub open spec fn clock_read(w: World, task: usize, script: Seq<Reply>) -> (
    Result<u64, JournalError>,
    World,
) {
    let (reply, w1) = told(w, Ask::Now, script);
    let ticks = reply->Ticks_0;
    let (answer, w2) = task_appended(w1, task, Seq::empty(), Payload::ClockRead { ticks }, script);
    match answer {
        Ok(_) => (Ok(ticks), w2),
        Err(e) => (Err(e), w2),
    }
}

/// Journal an entry without parents for its own sake.
pub open spec fn plain_appended(w: World, task: usize, payload: Payload, script: Seq<Reply>) -> (
    Result<(), JournalError>,
    World,
) {
    let (answer, w1) = task_appended(w, task, Seq::empty(), payload, script);
    (done(answer), w1)
}

/// Journal and apply a partition of a directed link: it is toggled.
pub open spec fn partition_applied(w: World, task: usize, src: usize, dst: usize, script: Seq<
    Reply,
>) -> (Result<EntryHash, JournalError>, World) {
    let (answer, w1) = task_appended(w, task, Seq::empty(), partition_payload(src, dst), script);
    match answer {
        Err(_) => (answer, w1),
        Ok(_) => (
            answer,
            World {
                net: toggled(
                    w1.net,
                    actor_of(src).0 as usize,
                    actor_of(dst).0 as usize,
                ),
                ..w1
            },
        ),
    }
}

/// A task with another register.
pub open spec fn register_set(w: World, task: usize, value: u64) -> World {
    World {
        tasks: w.tasks.update(task as int, TaskEntry { register: value, ..w.tasks[task as int] }),
        ..w
    }
}

/// Create a task.
pub open spec fn spawned(w: World, script: Seq<Reply>) -> World {
    let id = w.tasks.len() as usize;
    let w1 = World { tasks: w.tasks.push(fresh_task()), ..w };
    let (answer, w2) = appended(
        w1,
        draft(actor_of(id), Seq::empty(), Payload::Spawn { child_actor: actor_of(id) }),
        script,
    );
    let w3 = match answer {
        Ok(_) => w2,
        Err(e) => noted(w2, e),
    };
    World { ready: w3.ready.push(id), ..w3 }
}

/// Streams in which a task's stream exists: it is seeded on first use.
pub open spec fn stream_opened(w: World, task: usize, stream: u32, script: Seq<Reply>) -> (
    int,
    World,
) {
    match stream_slot(w.streams, task, stream) {
        Some(i) => (i, w),
        None => {
            let (reply, w1) = told(w, Ask::StreamSeed { label: stream_label(stream) }, script);
            let state = StreamState { task, stream, seed: reply->Seed_0, drawn: 0 };
            (w.streams.len() as int, World { streams: w.streams.push(state), ..w1 })
        },
    }
}

/// Draw a word of a task's stream and journal the draw.
pub open spec fn word_drawn(w: World, task: usize, stream: u32, script: Seq<Reply>) -> (
    u64,
    World,
) {
    let (i, w1) = stream_opened(w, task, stream, script);
    let state = w1.streams[i];
    let word = next_word(state);
    let w2 = World {
        streams: w1.streams.update(i, StreamState { drawn: next_count(state.drawn), ..state }),
        ..w1
    };
    let payload = Payload::RngDraw {
        stream: StreamId(stream),
        draw_index: 0,
        content: le(word as nat, 8),
    };
    (word, kept(w2, task, Seq::empty(), payload, script).1)
}

/// Write a value to storage: the write, its scheduled fault, then the sampled
/// crash.
pub open spec fn value_written(
    w: World,
    task: usize,
    path: Seq<char>,
    value: u64,
    script: Seq<Reply>,
) -> (Result<EntryHash, JournalError>, World) {
    let (reply, w1) = told(w, Ask::FsWrite { actor: actor_of(task), path, value }, script);
    match reply->Appended_0 {
        Err(e) => (Err(e), w1),
        Ok(id) => {
            let w2 = notified(
                counted(w1, actor_of(task)),
                actor_of(task),
                EntryKind::FsWrite,
                task,
                Some(id),
                script,
            );
            let (injected, w3) = write_injected(w2, task, id, path, script);
            match injected {
                Err(e) => (Err(e), w3),
                Ok(_) => {
                    let (sampled, w4) = crash_sampled(w3, task, path, id, script);
                    match sampled {
                        Err(e) => (Err(e), w4),
                        Ok(_) => (Ok(id), w4),
                    }
                },
            }
        },
    }
}

/// Flush storage.
pub open spec fn flushed(w: World, task: usize, script: Seq<Reply>) -> (
    Result<EntryHash, JournalError>,
    World,
) {
    let (reply, w1) = told(w, Ask::FsFsync { actor: actor_of(task) }, script);
    match reply->Appended_0 {
        Err(e) => (Err(e), w1),
        Ok(id) => (
            Ok(id),
            notified(
                counted(w1, actor_of(task)),
                actor_of(task),
                EntryKind::FsFsync,
                task,
                Some(id),
                script,
            ),
        ),
    }
}

/// Read a value from storage.
pub open spec fn value_read(w: World, task: usize, path: Seq<char>, script: Seq<Reply>) -> (
    Result<Option<u64>, JournalError>,
    World,
) {
    let (reply, w1) = told(w, Ask::FsRead { actor: actor_of(task), path }, script);
    match reply->Value_0 {
        Err(e) => (Err(e), w1),
        Ok(value) => {
            let (head, w2) = told(
                counted(w1, actor_of(task)),
                Ask::HeadForActor { actor: actor_of(task) },
                script,
            );
            (
                Ok(value),
                notified(w2, actor_of(task), EntryKind::FsRead, task, head->Head_0, script),
            )
        },
    }
}

/// Journal a storage crash and crash storage.
pub open spec fn crashed(w: World, task: usize, script: Seq<Reply>) -> (Option<EntryHash>, World) {
    let (id, w1) = kept(
        w,
        task,
        Seq::empty(),
        crash_payload(task, Crash::DropAllUnsynced),
        script,
    );
    (id, fs_crashed(w1, script))
}

/// Schema digest of scalar outcomes: the digest of `ldgr.sim.outcome.v1`.
pub open spec fn outcome_digest() -> EntryHash {
    EntryHash(
        [
            0x67u8, 0xc9u8, 0x3du8, 0x0fu8, 0xb1u8, 0x85u8, 0x81u8, 0x56u8,
            0xadu8, 0xf7u8, 0x35u8, 0x4eu8, 0x3eu8, 0x31u8, 0xc7u8, 0x8bu8,
            0xaeu8, 0xbau8, 0x7fu8, 0x50u8, 0x63u8, 0x62u8, 0xceu8, 0xbfu8,
            0xf5u8, 0x90u8, 0x43u8, 0x64u8, 0x6au8, 0xf2u8, 0x01u8, 0xbcu8,
        ],
    )
}

/// Schema digest of scalar assertions: the digest of `ldgr.sim.assert.v1`.
pub open spec fn assert_digest() -> EntryHash {
    EntryHash(
        [
            0x2bu8, 0x60u8, 0xddu8, 0xa5u8, 0xdbu8, 0x69u8, 0x7bu8, 0x0au8,
            0x05u8, 0xe0u8, 0x85u8, 0xf2u8, 0x38u8, 0xddu8, 0xa7u8, 0x58u8,
            0xfbu8, 0x08u8, 0x94u8, 0x91u8, 0x78u8, 0xd4u8, 0x7au8, 0xb6u8,
            0xb0u8, 0x00u8, 0x70u8, 0x76u8, 0x06u8, 0xdau8, 0x35u8, 0x26u8,
        ],
    )
}

/// The payload of a scalar outcome.
pub open spec fn outcome_payload(value: u64) -> Payload {
    Payload::Outcome { schema: outcome_digest(), value: Canonical::Unsigned(value) }
}

/// The payload that ends a program.
pub open spec fn ending_payload() -> Payload {
    Payload::Outcome { schema: outcome_digest(), value: Canonical::Text("done"@) }
}

/// The payload of an assertion.
pub open spec fn assert_payload(passed: bool) -> Payload {
    Payload::Assert {
        predicate: assert_digest(),
        passed,
        detail: Canonical::Unsigned(
            if passed {
                1
            } else {
                0
            },
        ),
    }
}

/// The payload of an input value.
pub open spec fn input_payload(generator: u64, replay: u64, value: u64) -> Payload {
    Payload::InputStep { generator, replay, value: Canonical::Unsigned(value) }
}

} // verus!
