//! Instruction programs and run outcomes.

use vstd::prelude::*;

verus! {

/// Number of the stream of scheduler draws; the journal keeps the resolved
/// position so replays stay hash-identical.
pub const SCHED_STREAM: u32 = 0;

/// Number of the actor reserved for scheduler-owned journal entries.
pub const SCHED_ACTOR: u32 = 0xffff_ffff;

/// One cooperative instruction executed by a simulated task.
#[derive(Debug, PartialEq, Eq)]
pub enum Instruction {
    /// Yield to the scheduler.
    Yield,
    /// Sleep for virtual time units.
    Sleep(u64),
    /// Send a payload to another task immediately.
    Send {
        /// Receiving task.
        to: usize,
        /// The payload.
        payload: u64,
    },
    /// Send a payload with simulated network delay.
    SendTimed {
        /// Receiving task.
        to: usize,
        /// The payload.
        payload: u64,
        /// Ticks until delivery.
        delay: u64,
    },
    /// Receive a message or block.
    Receive,
    /// Record a value: [`Instruction::Input`] with zeroed keys.
    SetValue(u64),
    /// Record a value under its `generator` and `replay` keys.
    Input {
        /// Generator of the value.
        generator: u64,
        /// Replay key.
        replay: u64,
        /// The value.
        value: u64,
    },
    /// Read the current virtual time into the task-local register.
    ReadClock,
    /// Write a key-value entry into storage.
    FsWrite {
        /// The key.
        path: String,
        /// The value.
        value: u64,
    },
    /// Persist dirty entries in storage.
    FsFsync,
    /// Read a key-value entry from storage.
    FsRead {
        /// The key.
        path: String,
    },
    /// Trigger a storage crash.
    FsCrash,
    /// Record an assertion.
    Assert(bool),
    /// Emit an outcome entry using the task-local register.
    Outcome,
    /// Stop the program.
    Done,
}

impl Clone for Instruction {
    fn clone(&self) -> (copy: Instruction)
        ensures
            copy == *self,
    {
        match self {
            Instruction::Yield => Instruction::Yield,
            Instruction::Sleep(ticks) => Instruction::Sleep(*ticks),
            Instruction::Send { to, payload } => Instruction::Send { to: *to, payload: *payload },
            Instruction::SendTimed { to, payload, delay } => Instruction::SendTimed {
                to: *to,
                payload: *payload,
                delay: *delay,
            },
            Instruction::Receive => Instruction::Receive,
            Instruction::SetValue(value) => Instruction::SetValue(*value),
            Instruction::Input { generator, replay, value } => Instruction::Input {
                generator: *generator,
                replay: *replay,
                value: *value,
            },
            Instruction::ReadClock => Instruction::ReadClock,
            Instruction::FsWrite { path, value } => Instruction::FsWrite {
                path: path.clone(),
                value: *value,
            },
            Instruction::FsFsync => Instruction::FsFsync,
            Instruction::FsRead { path } => Instruction::FsRead { path: path.clone() },
            Instruction::FsCrash => Instruction::FsCrash,
            Instruction::Assert(passed) => Instruction::Assert(*passed),
            Instruction::Outcome => Instruction::Outcome,
            Instruction::Done => Instruction::Done,
        }
    }
}

/// Typed halt reason for monitor halts.
#[derive(Debug, PartialEq, Eq)]
pub struct HaltReason(pub String);

impl View for HaltReason {
    type V = Seq<char>;

    open spec fn view(&self) -> Seq<char> {
        self.0@
    }
}

impl HaltReason {
    /// Create a reason from a string.
    pub fn new(reason: &str) -> (halt: HaltReason)
        ensures
            halt@ == reason@,
    {
        HaltReason(reason.to_owned())
    }

    /// View as str.
    pub fn as_str(&self) -> (text: &str)
        ensures
            text@ == self@,
    {
        self.0.as_str()
    }
}

impl Clone for HaltReason {
    fn clone(&self) -> (copy: HaltReason)
        ensures
            copy == *self,
    {
        HaltReason(self.0.clone())
    }
}

impl From<String> for HaltReason {
    fn from(value: String) -> (halt: HaltReason) {
        HaltReason(value)
    }
}

impl vstd::std_specs::convert::FromSpecImpl<String> for HaltReason {
    open spec fn obeys_from_spec() -> bool {
        true
    }

    open spec fn from_spec(value: String) -> HaltReason {
        HaltReason(value)
    }
}

/// Whether a run reached completion, and why it stopped when it did not.
#[derive(Debug, PartialEq, Eq)]
pub enum RunOutcome {
    /// Every task finished.
    Completed,
    /// The step budget ran out while tasks were still ready or blocked.
    BudgetExhausted,
    /// No task was ready and at least one task was still pending.
    Blocked,
    /// A mid-run monitor halted execution.
    MonitorHalt(HaltReason),
}

impl Clone for RunOutcome {
    fn clone(&self) -> (copy: RunOutcome)
        ensures
            copy == *self,
    {
        match self {
            RunOutcome::Completed => RunOutcome::Completed,
            RunOutcome::BudgetExhausted => RunOutcome::BudgetExhausted,
            RunOutcome::Blocked => RunOutcome::Blocked,
            RunOutcome::MonitorHalt(reason) => RunOutcome::MonitorHalt(reason.clone()),
        }
    }
}

/// Action returned by a mid-run step monitor.
#[derive(Debug, PartialEq, Eq)]
pub enum OnlineAction {
    /// Continue execution.
    Continue,
    /// Halt execution with a reason.
    Halt {
        /// The reason.
        reason: HaltReason,
    },
}

} // verus!
