//! Journal records: what the simulation writes down of every effect.

use crate::config::{Crash, CrashOperation};
use crate::ids::{ActorId, EntryHash, MessageId, StreamId};
use vstd::prelude::*;

verus! {

/// Kind of a journal entry.
#[derive(Debug, Clone, Copy, PartialEq, Eq, PartialOrd, Ord, Hash, Structural)]
pub enum EntryKind {
    /// A task was created.
    Spawn,
    /// A random draw.
    RngDraw,
    /// A message was sent.
    Send,
    /// A message was received.
    Recv,
    /// A task yielded or waits.
    Block,
    /// A waiting task became runnable.
    Wake,
    /// A timer was armed.
    TimerSet,
    /// A timer fired.
    TimerFire,
    /// Virtual time was read.
    ClockRead,
    /// An input value entered the run.
    InputStep,
    /// An assertion was evaluated.
    Assert,
    /// A task reported an outcome.
    Outcome,
    /// A fault took effect.
    Fault,
    /// A storage write.
    FsWrite,
    /// A storage flush.
    FsFsync,
    /// A storage read.
    FsRead,
}

/// A value in its canonical form.
#[derive(Debug, Clone, PartialEq, Eq)]
pub enum CanonicalValue {
    /// Unsigned integer.
    Unsigned(u64),
    /// Text.
    Text(String),
}

/// The mathematical content of a [`CanonicalValue`].
pub enum Canonical {
    Unsigned(u64),
    Text(Seq<char>),
}

impl View for CanonicalValue {
    type V = Canonical;

    open spec fn view(&self) -> Canonical {
        match *self {
            CanonicalValue::Unsigned(n) => Canonical::Unsigned(n),
            CanonicalValue::Text(s) => Canonical::Text(s@),
        }
    }
}

/// A fault as the journal keeps it.
#[derive(Debug, Clone, PartialEq, Eq)]
pub enum FaultPayload {
    /// The message was dropped.
    DropMessage {
        /// The message.
        message_id: MessageId,
    },
    /// The message was transmitted again.
    DuplicateMessage {
        /// The message.
        message_id: MessageId,
        /// Number of the copy, counted from one.
        copy_ordinal: u32,
    },
    /// A directed link was partitioned.
    Partition {
        /// Sending actor.
        src: ActorId,
        /// Receiving actor.
        dst: ActorId,
        /// Whether the partition is in force.
        enabled: bool,
    },
    /// An actor's storage crashed.
    CrashActor {
        /// The actor.
        actor: ActorId,
        /// What the crash did.
        crash_operation: CrashOperation,
    },
}

/// The mathematical content of a [`FaultPayload`].
pub enum FaultModel {
    DropMessage { message_id: MessageId },
    DuplicateMessage { message_id: MessageId, copy_ordinal: u32 },
    Partition { src: ActorId, dst: ActorId, enabled: bool },
    CrashActor { actor: ActorId, crash_operation: Crash },
}

impl View for FaultPayload {
    type V = FaultModel;

    open spec fn view(&self) -> FaultModel {
        match *self {
            FaultPayload::DropMessage { message_id } => FaultModel::DropMessage { message_id },
            FaultPayload::DuplicateMessage { message_id, copy_ordinal } => {
                FaultModel::DuplicateMessage { message_id, copy_ordinal }
            },
            FaultPayload::Partition { src, dst, enabled } => FaultModel::Partition {
                src,
                dst,
                enabled,
            },
            FaultPayload::CrashActor { actor, crash_operation } => FaultModel::CrashActor {
                actor,
                crash_operation: crash_operation@,
            },
        }
    }
}

/// What a [`EntryKind::Wake`] entry waited for.
#[derive(Debug, Clone, Copy, PartialEq, Eq, Structural)]
pub enum WakePayload {
    /// A message became deliverable.
    MessageReady {
        /// The message.
        message_id: MessageId,
    },
    /// A timer fired.
    TimerReady {
        /// The timer.
        timer_id: u64,
    },
}

/// Content of a journal entry.
#[derive(Debug, Clone, PartialEq, Eq)]
pub enum EntryPayload {
    /// A task was created.
    Spawn {
        /// Its actor.
        child_actor: ActorId,
    },
    /// A random draw.
    RngDraw {
        /// Stream that was drawn from.
        stream: StreamId,
        /// Position of the draw.
        draw_index: u64,
        /// Drawn bytes.
        content: Vec<u8>,
    },
    /// A message was sent.
    Send {
        /// The message.
        message_id: MessageId,
        /// Sending actor.
        from: ActorId,
        /// Receiving actor.
        to: ActorId,
        /// Content at the sender.
        original_content: Vec<u8>,
    },
    /// A message was received.
    Recv {
        /// The message.
        message_id: MessageId,
        /// Sending actor.
        from: ActorId,
        /// Receiving actor.
        to: ActorId,
        /// Content at the receiver.
        observed_content: Vec<u8>,
    },
    /// A task yielded or waits.
    Block,
    /// A waiting task became runnable.
    Wake(WakePayload),
    /// A timer was armed.
    TimerSet {
        /// The timer.
        timer_id: u64,
        /// Ticks until it fires.
        deadline_ticks: u64,
    },
    /// A timer fired.
    TimerFire {
        /// The timer.
        timer_id: u64,
        /// Ticks of its deadline.
        deadline_ticks: u64,
    },
    /// Virtual time was read.
    ClockRead {
        /// The time.
        ticks: u64,
    },
    /// An input value entered the run.
    InputStep {
        /// Generator of the value.
        generator: u64,
        /// Replay key.
        replay: u64,
        /// The value.
        value: CanonicalValue,
    },
    /// An assertion was evaluated.
    Assert {
        /// Schema of the assertion.
        predicate: EntryHash,
        /// Whether it held.
        passed: bool,
        /// Details.
        detail: CanonicalValue,
    },
    /// A task reported an outcome.
    Outcome {
        /// Schema of the outcome.
        schema: EntryHash,
        /// The outcome.
        value: CanonicalValue,
    },
    /// A fault took effect.
    Fault(FaultPayload),
}

/// The mathematical content of an [`EntryPayload`].
pub enum Payload {
    Spawn { child_actor: ActorId },
    RngDraw { stream: StreamId, draw_index: u64, content: Seq<u8> },
    Send { message_id: MessageId, from: ActorId, to: ActorId, original_content: Seq<u8> },
    Recv { message_id: MessageId, from: ActorId, to: ActorId, observed_content: Seq<u8> },
    Block,
    Wake(WakePayload),
    TimerSet { timer_id: u64, deadline_ticks: u64 },
    TimerFire { timer_id: u64, deadline_ticks: u64 },
    ClockRead { ticks: u64 },
    InputStep { generator: u64, replay: u64, value: Canonical },
    Assert { predicate: EntryHash, passed: bool, detail: Canonical },
    Outcome { schema: EntryHash, value: Canonical },
    Fault(FaultModel),
}

impl View for EntryPayload {
    type V = Payload;

    open spec fn view(&self) -> Payload {
        match *self {
            EntryPayload::Spawn { child_actor } => Payload::Spawn { child_actor },
            EntryPayload::RngDraw { stream, draw_index, content } => Payload::RngDraw {
                stream,
                draw_index,
                content: content@,
            },
            EntryPayload::Send { message_id, from, to, original_content } => Payload::Send {
                message_id,
                from,
                to,
                original_content: original_content@,
            },
            EntryPayload::Recv { message_id, from, to, observed_content } => Payload::Recv {
                message_id,
                from,
                to,
                observed_content: observed_content@,
            },
            EntryPayload::Block => Payload::Block,
            EntryPayload::Wake(wake) => Payload::Wake(wake),
            EntryPayload::TimerSet { timer_id, deadline_ticks } => Payload::TimerSet {
                timer_id,
                deadline_ticks,
            },
            EntryPayload::TimerFire { timer_id, deadline_ticks } => Payload::TimerFire {
                timer_id,
                deadline_ticks,
            },
            EntryPayload::ClockRead { ticks } => Payload::ClockRead { ticks },
            EntryPayload::InputStep { generator, replay, value } => Payload::InputStep {
                generator,
                replay,
                value: value@,
            },
            EntryPayload::Assert { predicate, passed, detail } => Payload::Assert {
                predicate,
                passed,
                detail: detail@,
            },
            EntryPayload::Outcome { schema, value } => Payload::Outcome { schema, value: value@ },
            EntryPayload::Fault(fault) => Payload::Fault(fault@),
        }
    }
}

/// Kind of the entry that holds a payload.
pub open spec fn kind_of(payload: Payload) -> EntryKind {
    match payload {
        Payload::Spawn { .. } => EntryKind::Spawn,
        Payload::RngDraw { .. } => EntryKind::RngDraw,
        Payload::Send { .. } => EntryKind::Send,
        Payload::Recv { .. } => EntryKind::Recv,
        Payload::Block => EntryKind::Block,
        Payload::Wake(_) => EntryKind::Wake,
        Payload::TimerSet { .. } => EntryKind::TimerSet,
        Payload::TimerFire { .. } => EntryKind::TimerFire,
        Payload::ClockRead { .. } => EntryKind::ClockRead,
        Payload::InputStep { .. } => EntryKind::InputStep,
        Payload::Assert { .. } => EntryKind::Assert,
        Payload::Outcome { .. } => EntryKind::Outcome,
        Payload::Fault(_) => EntryKind::Fault,
    }
}

impl EntryPayload {
    /// Kind of the entry that holds this payload.
    pub fn kind(&self) -> (kind: EntryKind)
        ensures
            kind == kind_of(self@),
    {
        match self {
            EntryPayload::Spawn { .. } => EntryKind::Spawn,
            EntryPayload::RngDraw { .. } => EntryKind::RngDraw,
            EntryPayload::Send { .. } => EntryKind::Send,
            EntryPayload::Recv { .. } => EntryKind::Recv,
            EntryPayload::Block => EntryKind::Block,
            EntryPayload::Wake(_) => EntryKind::Wake,
            EntryPayload::TimerSet { .. } => EntryKind::TimerSet,
            EntryPayload::TimerFire { .. } => EntryKind::TimerFire,
            EntryPayload::ClockRead { .. } => EntryKind::ClockRead,
            EntryPayload::InputStep { .. } => EntryKind::InputStep,
            EntryPayload::Assert { .. } => EntryKind::Assert,
            EntryPayload::Outcome { .. } => EntryKind::Outcome,
            EntryPayload::Fault(_) => EntryKind::Fault,
        }
    }
}

/// One entry to be appended.
#[derive(Debug, Clone, PartialEq, Eq)]
pub struct Record {
    /// Actor that the entry belongs to.
    pub actor: ActorId,
    /// Causal parents besides the actor's own head.
    pub parents: Vec<EntryHash>,
    /// Whether the entry before it in the same batch is a parent too.
    pub chained: bool,
    /// Content.
    pub payload: EntryPayload,
}

/// The mathematical content of a [`Record`].
#[verifier::ext_equal]
pub struct Draft {
    pub actor: ActorId,
    pub parents: Seq<EntryHash>,
    pub chained: bool,
    pub payload: Payload,
}

impl View for Record {
    type V = Draft;

    open spec fn view(&self) -> Draft {
        Draft {
            actor: self.actor,
            parents: self.parents@,
            chained: self.chained,
            payload: self.payload@,
        }
    }
}

/// The drafts of a batch.
pub open spec fn drafts(batch: Seq<Record>) -> Seq<Draft> {
    batch.map_values(|r: Record| r@)
}

/// An entry on its own, with the given parents.
pub open spec fn draft(actor: ActorId, parents: Seq<EntryHash>, payload: Payload) -> Draft {
    Draft { actor, parents, chained: false, payload }
}

/// Why a payload was refused.
#[derive(Debug, Clone, Copy, PartialEq, Eq, Structural)]
pub enum PayloadFault {
    /// A message is longer than the journal takes.
    MessageTooLong {
        /// Length of the message.
        length: u64,
        /// Longest message that is taken.
        limit: u64,
    },
    /// A scheduled crash state has no operator.
    UnknownCrashState {
        /// The identifier.
        identifier: u64,
    },
    /// Storage refused a sampled crash operator.
    SwarmCrashRejected {
        /// Storage's reason.
        reason: u64,
    },
    /// Storage refused a scheduled corruption.
    CorruptRejected {
        /// Storage's reason.
        reason: u64,
    },
    /// Storage refused a scheduled crash state.
    CrashStateRejected {
        /// Storage's reason.
        reason: u64,
    },
    /// The journal itself refused the payload.
    Refused {
        /// The journal's reason.
        reason: u64,
    },
}

/// A failed append.
#[derive(Debug, Clone, Copy, PartialEq, Eq)]
pub enum JournalError {
    /// The payload cannot be journaled.
    InvalidPayload(PayloadFault),
    /// A causal parent is not in the journal.
    MissingParent(EntryHash),
    /// An actor's entries are not numbered in order.
    NonMonotonicSequence {
        /// The actor.
        actor: ActorId,
        /// Number that comes next.
        expected: u64,
        /// Number that came.
        actual: u64,
    },
}

} // verus!
